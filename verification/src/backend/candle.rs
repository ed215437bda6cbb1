//! The tensor handle backed by the `candle_core` engine.
//!
//! An engine tensor is opaque here.  What it holds is modelled by two
//! uninterpreted functions: `dims_of`, its shape, and `cells_of`, its
//! elements in row-major order as abstract values.  Every call into the
//! engine goes through a small trusted wrapper whose contract states, over
//! this model, what the engine's source shows; all axis bookkeeping around
//! the calls is verified.

use vstd::prelude::*;
use vstd::pervasive::unreached;

use crate::Operation;
use crate::algebra::{
    product, valid_index, flat_index, is_permutation, permuted_dims, permuted_index,
    transpose_rel, unique_axes, axis_listed, op_at, lemma_op_at, positions_strictly_increasing,
    lemma_increasing_gap, insert_ones, lemma_insert_ones_push,
    repeat_factors, lemma_repeat_factors_len, lemma_repeat_factors_at,
    lemma_insert_ones_positions, lemma_adjacent_implies_increasing, mod_index, product_scaled,
    lemma_product_positive, lemma_product_zero_axis, shape_product, check_permutation,
};
use crate::error::EinopsError;

verus! {

#[verifier::external_type_specification]
#[verifier::external_body]
pub struct ExTensor(candle_core::Tensor);

#[verifier::external_type_specification]
#[verifier::external_body]
pub struct ExError(candle_core::Error);

/// The shape of an engine tensor, outermost axis first.
pub uninterp spec fn dims_of(t: candle_core::Tensor) -> Seq<usize>;

/// The elements of an engine tensor in row-major order, as abstract values.
pub uninterp spec fn cells_of(t: candle_core::Tensor) -> Seq<int>;

/// What the engine's minimum over one axis returns: a function of the source
/// elements, shape and axis alone.
pub uninterp spec fn min_cells(c: Seq<int>, d: Seq<usize>, axis: int) -> Seq<int>;

/// What the engine's maximum over one axis returns.
pub uninterp spec fn max_cells(c: Seq<int>, d: Seq<usize>, axis: int) -> Seq<int>;

/// What the engine's sum over one axis returns.
pub uninterp spec fn sum_cells(c: Seq<int>, d: Seq<usize>, axis: int) -> Seq<int>;

/// What the engine's arithmetic mean over one axis returns.
pub uninterp spec fn mean_cells(c: Seq<int>, d: Seq<usize>, axis: int) -> Seq<int>;

/// What one engine reduction returns over the model.  The engine declares
/// Prod but does not implement it, so no contract ever reaches that arm.
pub open spec fn reduce_op_cells(c: Seq<int>, d: Seq<usize>, axis: int, op: Operation) -> Seq<
    int,
> {
    match op {
        Operation::Min => min_cells(c, d, axis),
        Operation::Max => max_cells(c, d, axis),
        Operation::Sum => sum_cells(c, d, axis),
        Operation::Mean => mean_cells(c, d, axis),
        Operation::Prod => c,
    }
}

/// The model after reducing, in descending axis order, every listed axis in
/// `[k, rank)`: axis `rank - 1` first.  Removing an axis shifts every higher
/// axis index down by one, so processing from the highest index to the
/// lowest keeps every not-yet-processed index in the list naming the same
/// logical axis.
pub open spec fn reduce_from(
    d: Seq<usize>,
    c: Seq<int>,
    s: Seq<(usize, Operation)>,
    k: int,
    rank: int,
) -> (Seq<usize>, Seq<int>)
    decreases rank - k,
{
    if k >= rank {
        (d, c)
    } else {
        let (d1, c1) = reduce_from(d, c, s, k + 1, rank);
        if axis_listed(s, k) {
            (d1.remove(k), reduce_op_cells(c1, d1, k, op_at(s, k)))
        } else {
            (d1, c1)
        }
    }
}

/// The shape component of `reduce_from` does not depend on the cells.
pub proof fn lemma_reduce_from_dims(
    d: Seq<usize>,
    c: Seq<int>,
    s: Seq<(usize, Operation)>,
    k: int,
    rank: int,
)
    ensures
        reduce_from(d, c, s, k, rank).0 == crate::algebra::reduce_dims_from(d, s, k, rank),
    decreases rank - k,
{
    if k < rank {
        lemma_reduce_from_dims(d, c, s, k + 1, rank);
    }
}

/// Axes below `k` are untouched while the axes in `[k, rank)` are reduced.
pub proof fn lemma_reduce_from_prefix(
    d: Seq<usize>,
    c: Seq<int>,
    s: Seq<(usize, Operation)>,
    k: int,
    rank: int,
)
    requires
        0 <= k <= rank,
        rank == d.len(),
    ensures
        reduce_from(d, c, s, k, rank).0.len() >= k,
        reduce_from(d, c, s, k, rank).0.take(k) == d.take(k),
    decreases rank - k,
{
    if k < rank {
        lemma_reduce_from_prefix(d, c, s, k + 1, rank);
        let d1 = reduce_from(d, c, s, k + 1, rank).0;
        assert(forall|j: int| 0 <= j < k + 1 ==> d1[j] == d.take(k + 1)[j]);
        if axis_listed(s, k) {
            assert(d1.remove(k).take(k) =~= d.take(k));
        } else {
            assert(d1.take(k) =~= d.take(k));
        }
    }
}

/// Well-formedness of the arguments of a broadcast call: the insertions
/// reconcile with the target rank and the positions, given in the final axis
/// numbering, are strictly increasing and within that rank.
pub open spec fn add_axes_valid(dims: Seq<usize>, naxes: int, pairs: Seq<(usize, usize)>) -> bool {
    &&& dims.len() + pairs.len() == naxes
    &&& positions_strictly_increasing(pairs)
    &&& forall|t: int| 0 <= t < pairs.len() ==> ((#[trigger] pairs[t]).0 as int) < naxes
}

/// Relies on candle_core::Tensor::dims: the axis lengths of the tensor.  The
/// tensor's buffer holds exactly one element per index of its shape, and
/// that count fits in usize since the buffer is allocated.
#[verifier::external_body]
fn engine_dims(t: &candle_core::Tensor) -> (r: Vec<usize>)
    ensures
        r@ == dims_of(*t),
        cells_of(*t).len() == product(r@),
        product(r@) <= usize::MAX,
{
    t.dims().to_vec()
}

/// Relies on candle_core::Tensor::clone: the handle is reference-counted, so
/// the clone has the same shape and elements.
#[verifier::external_body]
fn engine_clone(t: &candle_core::Tensor) -> (r: candle_core::Tensor)
    ensures
        dims_of(r) == dims_of(*t) && cells_of(r) == cells_of(*t),
{
    t.clone()
}

/// Relies on candle_core::Tensor::reshape: with an equal element count the
/// call succeeds and reinterprets the same elements, row-major, under the
/// new shape (copying first when the layout is not contiguous).
#[verifier::external_body]
fn engine_reshape(t: &candle_core::Tensor, shape: &Vec<usize>) -> (r: candle_core::Tensor)
    requires
        product(shape@) == product(dims_of(*t)),
        cells_of(*t).len() == product(dims_of(*t)),
    ensures
        dims_of(r) == shape@ && cells_of(r) == cells_of(*t),
{
    t.reshape(candle_core::Shape::from_dims(&shape[..])).unwrap()
}

/// Relies on candle_core::Tensor::permute: for a total permutation the call
/// succeeds, output axis `i` is input axis `axes[i]`, and every element
/// moves from input index `idx` to output index `permuted_index(idx, axes)`.
#[verifier::external_body]
fn engine_permute(t: &candle_core::Tensor, axes: &Vec<usize>) -> (r: candle_core::Tensor)
    requires
        is_permutation(axes@, dims_of(*t).len() as int),
    ensures
        dims_of(r) == permuted_dims(dims_of(*t), axes@) && cells_of(r).len() == product(dims_of(r))
            && product(dims_of(r)) <= usize::MAX,
        forall|idx: Seq<int>|
            #[trigger] valid_index(dims_of(*t), idx) ==> cells_of(r)[flat_index(
                dims_of(r),
                permuted_index(idx, axes@),
            )] == cells_of(*t)[flat_index(dims_of(*t), idx)],
{
    t.permute(&axes[..]).unwrap()
}

/// Relies on candle_core::Tensor::min: for an in-range axis the call
/// succeeds and collapses that axis, removing it from the shape; the result
/// depends on the source elements, shape and axis alone.
#[verifier::external_body]
fn engine_min(t: &candle_core::Tensor, axis: usize) -> (r: candle_core::Tensor)
    requires
        (axis as int) < dims_of(*t).len(),
        dims_of(*t)[axis as int] >= 1,
    ensures
        dims_of(r) == dims_of(*t).remove(axis as int) && cells_of(r) == min_cells(
            cells_of(*t),
            dims_of(*t),
            axis as int,
        ) && cells_of(r).len() == product(dims_of(r)) && product(dims_of(r)) <= usize::MAX,
{
    t.min(axis).unwrap()
}

/// Relies on candle_core::Tensor::max: as `engine_min`, with the maximum.
#[verifier::external_body]
fn engine_max(t: &candle_core::Tensor, axis: usize) -> (r: candle_core::Tensor)
    requires
        (axis as int) < dims_of(*t).len(),
        dims_of(*t)[axis as int] >= 1,
    ensures
        dims_of(r) == dims_of(*t).remove(axis as int) && cells_of(r) == max_cells(
            cells_of(*t),
            dims_of(*t),
            axis as int,
        ) && cells_of(r).len() == product(dims_of(r)) && product(dims_of(r)) <= usize::MAX,
{
    t.max(axis).unwrap()
}

/// Relies on candle_core::Tensor::sum: as `engine_min`, with plain summation.
#[verifier::external_body]
fn engine_sum(t: &candle_core::Tensor, axis: usize) -> (r: candle_core::Tensor)
    requires
        (axis as int) < dims_of(*t).len(),
        dims_of(*t)[axis as int] >= 1,
    ensures
        dims_of(r) == dims_of(*t).remove(axis as int) && cells_of(r) == sum_cells(
            cells_of(*t),
            dims_of(*t),
            axis as int,
        ) && cells_of(r).len() == product(dims_of(r)) && product(dims_of(r)) <= usize::MAX,
{
    t.sum(&[axis][..]).unwrap()
}

/// Relies on candle_core::Tensor::mean: as `engine_min`, with the arithmetic
/// average (the sum scaled by the reciprocal of the axis length).
#[verifier::external_body]
fn engine_mean(t: &candle_core::Tensor, axis: usize) -> (r: candle_core::Tensor)
    requires
        (axis as int) < dims_of(*t).len(),
        dims_of(*t)[axis as int] >= 1,
    ensures
        dims_of(r) == dims_of(*t).remove(axis as int) && cells_of(r) == mean_cells(
            cells_of(*t),
            dims_of(*t),
            axis as int,
        ) && cells_of(r).len() == product(dims_of(r)) && product(dims_of(r)) <= usize::MAX,
{
    t.mean(&[axis][..]).unwrap()
}

/// Relies on candle_core::Tensor::unsqueeze: for a position up to the rank
/// the call succeeds and inserts a length-1 axis there, leaving the elements
/// unchanged.
#[verifier::external_body]
fn engine_unsqueeze(t: &candle_core::Tensor, pos: usize) -> (r: candle_core::Tensor)
    requires
        (pos as int) <= dims_of(*t).len(),
    ensures
        dims_of(r) == dims_of(*t).insert(pos as int, 1usize) && cells_of(r) == cells_of(*t),
{
    t.unsqueeze(pos).unwrap()
}

/// Relies on candle_core::Tensor::repeat: with one factor per axis the call
/// tiles the data, so axis `i` grows to `factor * length` and the element at
/// `idx` comes from the source element at `idx` taken coordinate-wise modulo
/// the source lengths.
#[verifier::external_body]
fn engine_repeat(t: &candle_core::Tensor, reps: &Vec<usize>) -> (r: candle_core::Tensor)
    requires
        reps@.len() == dims_of(*t).len(),
        forall|i: int| 0 <= i < reps@.len() ==> #[trigger] reps@[i] >= 1,
        product_scaled(dims_of(*t), reps@) <= usize::MAX,
    ensures
        dims_of(r).len() == dims_of(*t).len() && (forall|i: int|
            0 <= i < dims_of(r).len() ==> (#[trigger] dims_of(r)[i]) as int == dims_of(*t)[i] as int
                * reps@[i] as int) && cells_of(r).len() == product(dims_of(r)) && product(
            dims_of(r),
        ) <= usize::MAX,
        forall|idx: Seq<int>|
            #[trigger] valid_index(dims_of(r), idx) ==> cells_of(r)[flat_index(dims_of(r), idx)]
                == cells_of(*t)[flat_index(dims_of(*t), mod_index(idx, dims_of(*t)))],
{
    t.repeat(candle_core::Shape::from_dims(&reps[..])).unwrap()
}

/// Relies on candle_core::Tensor::from_vec: with matching counts it builds a
/// CPU tensor holding exactly the given 64-bit integer values, row-major,
/// under the given shape.
#[verifier::external_body]
fn engine_from_vec(data: Vec<i64>, shape: &Vec<usize>) -> (r: candle_core::Tensor)
    requires
        product(shape@) == data@.len(),
    ensures
        dims_of(r) == shape@ && cells_of(r) == data@.map_values(|v: i64| v as int) && cells_of(
            r,
        ).len() == product(dims_of(r)) && product(dims_of(r)) <= usize::MAX,
{
    candle_core::Tensor::from_vec(
        data,
        candle_core::Shape::from_dims(&shape[..]),
        &candle_core::Device::Cpu,
    ).unwrap()
}

/// Relies on candle_core::Tensor::to_vec1: on a rank-1 tensor of 64-bit
/// integer elements it returns the elements in order; on any other element
/// type it reports an error, surfaced here as None.
#[verifier::external_body]
fn engine_to_vec1(t: &candle_core::Tensor) -> (r: Option<Vec<i64>>)
    requires
        dims_of(*t).len() == 1,
    ensures
        r matches Some(v) ==> v@.map_values(|x: i64| x as int) == cells_of(*t),
{
    match t.to_vec1::<i64>() {
        Ok(v) => Some(v),
        Err(_) => None,
    }
}

/// A tensor handle backed by the engine.  Every operation is a pure
/// transformation: it never mutates its input and returns a fresh handle.
#[derive(Debug)]
pub struct CandleTensor {
    inner: candle_core::Tensor,
    shape: Vec<usize>,
}

impl CandleTensor {
    /// The shape of this tensor, as the model sees it.
    pub closed spec fn dims(&self) -> Seq<usize> {
        dims_of(self.inner)
    }

    /// The elements of this tensor in row-major order, as the model sees
    /// them.
    pub closed spec fn cells(&self) -> Seq<int> {
        cells_of(self.inner)
    }

    /// The cached shape mirrors the engine's.
    pub closed spec fn synced(&self) -> bool {
        self.shape@ == dims_of(self.inner)
    }

    /// A well-formed handle: cached shape in sync, every axis length at
    /// least one, one element per index of the shape, and the element count
    /// fitting usize.
    pub open spec fn wf(&self) -> bool {
        &&& self.synced()
        &&& self.cells().len() == product(self.dims())
        &&& product(self.dims()) <= usize::MAX
        &&& forall|i: int| 0 <= i < self.dims().len() ==> #[trigger] self.dims()[i] >= 1
    }

    /// Wraps an engine tensor.  Returns None exactly when the engine value
    /// has a zero-length axis, which this layer rejects.
    #[verifier::loop_isolation(false)]
    pub fn from_tensor(inner: candle_core::Tensor) -> (r: Option<CandleTensor>)
        ensures
            (r matches Some(t) ==> t.wf() && t.dims() == dims_of(inner) && t.cells() == cells_of(
                inner,
            )),
            r is None ==> exists|i: int| 0 <= i < dims_of(inner).len() && dims_of(inner)[i] == 0,
    {
        let shape = engine_dims(&inner);
        let mut i: usize = 0;
        while i < shape.len()
            invariant
                0 <= i <= shape@.len(),
                forall|k: int| 0 <= k < i ==> #[trigger] shape@[k] >= 1,
            decreases shape@.len() - i,
        {
            if shape[i] == 0 {
                return None;
            }
            i += 1;
        }
        Some(CandleTensor { inner, shape })
    }

    /// Builds a tensor of 64-bit integers from row-major data and a shape.
    /// Returns None exactly when the shape has a zero-length axis or its
    /// element count differs from the data length.
    pub fn from_values(data: Vec<i64>, shape: Vec<usize>) -> (r: Option<CandleTensor>)
        ensures
            (r matches Some(t) ==> t.wf() && t.dims() == shape@ && t.cells() == data@.map_values(
                |v: i64| v as int,
            )),
            r is None ==> (exists|i: int| 0 <= i < shape@.len() && shape@[i] == 0) || product(
                shape@,
            ) != data@.len(),
    {
        let mut i: usize = 0;
        while i < shape.len()
            invariant
                0 <= i <= shape@.len(),
                forall|k: int| 0 <= k < i ==> #[trigger] shape@[k] >= 1,
            decreases shape@.len() - i,
        {
            if shape[i] == 0 {
                proof {
                    lemma_product_zero_axis(shape@, i as int);
                }
                return None;
            }
            i += 1;
        }
        let dlen = data.len();
        let count = match shape_product(&shape) {
            Some(p) => p,
            None => {
                proof {
                    lemma_product_positive(shape@);
                }
                // the count exceeds usize, so it cannot equal the data length
                return None;
            },
        };
        if count != dlen {
            return None;
        }
        let inner = engine_from_vec(data, &shape);
        proof {
            lemma_product_positive(shape@);
        }
        Some(CandleTensor { inner, shape })
    }

    /// Hands the underlying engine tensor back to the caller.
    pub fn into_tensor(self) -> (r: candle_core::Tensor)
        ensures
            dims_of(r) == self.dims(),
            cells_of(r) == self.cells(),
    {
        self.inner
    }

    /// A fresh handle to the same tensor value.
    pub fn duplicate(&self) -> (r: CandleTensor)
        requires
            self.wf(),
        ensures
            r.wf(),
            r.dims() == self.dims(),
            r.cells() == self.cells(),
    {
        let inner = engine_clone(&self.inner);
        let shape = engine_dims(&inner);
        CandleTensor { inner, shape }
    }

    /// The current dimension lengths, outermost first.
    pub fn shape(&self) -> (r: Vec<usize>)
        requires
            self.wf(),
        ensures
            r@ == self.dims(),
    {
        let r = self.shape.clone();
        proof {
            assert(r@ =~= self.shape@);
        }
        r
    }

    /// The elements in row-major order, when the engine holds them as 64-bit
    /// integers; None for any other element type.
    pub fn to_values(&self) -> (r: Option<Vec<i64>>)
        requires
            self.wf(),
        ensures
            r matches Some(v) ==> v@.map_values(|x: i64| x as int) == self.cells(),
    {
        let count = match shape_product(&self.shape) {
            Some(p) => p,
            None => {
                proof {
                    lemma_product_positive(self.dims());
                    assert(false);
                }
                unreached()
            },
        };
        let mut flat_shape: Vec<usize> = Vec::new();
        flat_shape.push(count);
        proof {
            assert(flat_shape@.len() == 1);
            assert(flat_shape@.last() == count);
            assert(flat_shape@.drop_last() =~= Seq::<usize>::empty());
            assert(product(flat_shape@) == product(flat_shape@.drop_last()) * (count as int));
        }
        let flat = engine_reshape(&self.inner, &flat_shape);
        engine_to_vec1(&flat)
    }

    /// Reinterprets the data under a new shape.  Succeeds exactly when the
    /// element count is preserved; the elements are not reordered.
    pub fn reshape(&self, shape: &Vec<usize>) -> (r: Result<CandleTensor, EinopsError>)
        requires
            self.wf(),
        ensures
            (r matches Ok(out) ==> product(shape@) == product(self.dims()) && out.wf()
                && out.dims() == shape@ && out.cells() == self.cells()),
            (r matches Err(e) ==> e == EinopsError::ShapeMismatch && product(shape@) != product(
                self.dims(),
            )),
    {
        proof {
            lemma_product_positive(self.dims());
        }
        let self_count = match shape_product(&self.shape) {
            Some(p) => p,
            None => {
                proof {
                    assert(false);
                }
                unreached()
            },
        };
        match shape_product(shape) {
            Some(target_count) => {
                if target_count == self_count {
                    let out_inner = engine_reshape(&self.inner, shape);
                    let out_shape = engine_dims(&out_inner);
                    proof {
                        assert forall|k: int| 0 <= k < shape@.len() implies #[trigger] shape@[k]
                            >= 1 by {
                            if shape@[k] == 0 {
                                lemma_product_zero_axis(shape@, k);
                            }
                        }
                    }
                    Ok(CandleTensor { inner: out_inner, shape: out_shape })
                } else {
                    Err(EinopsError::ShapeMismatch)
                }
            },
            None => Err(EinopsError::ShapeMismatch),
        }
    }

    /// Permutes the axis order: axis `axes[i]` of the input becomes axis `i`
    /// of the output.  Succeeds exactly when `axes` is a total permutation
    /// of `[0, rank)`.
    pub fn transpose(&self, axes: &Vec<usize>) -> (r: Result<CandleTensor, EinopsError>)
        requires
            self.wf(),
        ensures
            (r matches Ok(out) ==> is_permutation(axes@, self.dims().len() as int) && out.wf()
                && transpose_rel(self.dims(), self.cells(), axes@, out.dims(), out.cells())),
            (r matches Err(e) ==> e == EinopsError::InvalidPermutation && !is_permutation(
                axes@,
                self.dims().len() as int,
            )),
    {
        if !check_permutation(axes, self.shape.len()) {
            return Err(EinopsError::InvalidPermutation);
        }
        let out_inner = engine_permute(&self.inner, axes);
        let out_shape = engine_dims(&out_inner);
        proof {
            assert(forall|i: int|
                0 <= i < dims_of(out_inner).len() ==> #[trigger] dims_of(out_inner)[i] >= 1);
        }
        Ok(CandleTensor { inner: out_inner, shape: out_shape })
    }

    /// Collapses each listed axis with its paired operation, removing the
    /// axis from the shape.  The list is processed in descending axis order,
    /// so every entry keeps naming the same logical axis throughout.  Axis
    /// indices must be pairwise distinct.
    #[verifier::loop_isolation(false)]
    pub fn reduce_axes(&self, axes_operations: &Vec<(usize, Operation)>) -> (r: Result<
        CandleTensor,
        EinopsError,
    >)
        requires
            self.wf(),
            unique_axes(axes_operations@),
        ensures
            (r matches Ok(out) ==> {
                &&& forall|t: int|
                    0 <= t < axes_operations@.len() ==> ((#[trigger] axes_operations@[t]).0 as int)
                        < self.dims().len()
                &&& forall|t: int|
                    0 <= t < axes_operations@.len() ==> !((#[trigger] axes_operations@[t]).1
                        is Prod)
                &&& out.wf()
                &&& out.dims() == reduce_from(
                    self.dims(),
                    self.cells(),
                    axes_operations@,
                    0,
                    self.dims().len() as int,
                ).0
                &&& out.cells() == reduce_from(
                    self.dims(),
                    self.cells(),
                    axes_operations@,
                    0,
                    self.dims().len() as int,
                ).1
            }),
            (r matches Err(e) ==> {
                ||| (e == EinopsError::InvalidAxis && exists|t: int|
                    0 <= t < axes_operations@.len() && ((#[trigger] axes_operations@[t]).0 as int)
                        >= self.dims().len())
                ||| (e == EinopsError::UnsupportedOperation && (forall|t: int|
                    0 <= t < axes_operations@.len() ==> ((#[trigger] axes_operations@[t]).0 as int)
                        < self.dims().len()) && exists|t: int|
                    0 <= t < axes_operations@.len() && (#[trigger] axes_operations@[t]).1 is Prod)
            }),
    {
        let rank = self.shape.len();
        let n = axes_operations.len();
        let mut i: usize = 0;
        while i < n
            invariant
                0 <= i <= n,
                forall|t: int| 0 <= t < i ==> ((#[trigger] axes_operations@[t]).0) < rank,
            decreases n - i,
        {
            if axes_operations[i].0 >= rank {
                return Err(EinopsError::InvalidAxis);
            }
            i += 1;
        }
        let mut i: usize = 0;
        while i < n
            invariant
                0 <= i <= n,
                forall|t: int| 0 <= t < i ==> !((#[trigger] axes_operations@[t]).1 is Prod),
            decreases n - i,
        {
            match axes_operations[i].1 {
                Operation::Prod => {
                    return Err(EinopsError::UnsupportedOperation);
                },
                _ => {},
            }
            i += 1;
        }
        let ghost d0 = self.dims();
        let ghost c0 = self.cells();
        let cur_inner = engine_clone(&self.inner);
        let cur_shape = engine_dims(&cur_inner);
        let mut cur = CandleTensor { inner: cur_inner, shape: cur_shape };
        let mut k: usize = rank;
        while k > 0
            invariant
                0 <= k <= rank,
                cur.wf(),
                cur.dims() == reduce_from(d0, c0, axes_operations@, k as int, rank as int).0,
                cur.cells() == reduce_from(d0, c0, axes_operations@, k as int, rank as int).1,
            decreases k,
        {
            k = k - 1;
            let mut found: Option<Operation> = None;
            let mut j: usize = 0;
            while j < n
                invariant
                    0 <= j <= n,
                    (found matches Some(o) ==> exists|t: int|
                        0 <= t < j && (#[trigger] axes_operations@[t]).0 == k
                            && axes_operations@[t].1 == o),
                    (found is None ==> forall|t: int|
                        0 <= t < j ==> ((#[trigger] axes_operations@[t]).0) != k),
                decreases n - j,
            {
                if axes_operations[j].0 == k {
                    found = Some(axes_operations[j].1);
                }
                j += 1;
            }
            match found {
                Some(op) => {
                    proof {
                        let t = choose|t: int|
                            0 <= t < n && (#[trigger] axes_operations@[t]).0 == k
                                && axes_operations@[t].1 == op;
                        lemma_op_at(axes_operations@, t);
                        lemma_reduce_from_prefix(d0, c0, axes_operations@, k as int + 1,
                        rank as int);
                        assert(cur.dims()[k as int] == d0.take(k as int + 1)[k as int]);
                    }
                    let next_inner = match op {
                        Operation::Min => engine_min(&cur.inner, k),
                        Operation::Max => engine_max(&cur.inner, k),
                        Operation::Sum => engine_sum(&cur.inner, k),
                        Operation::Mean => engine_mean(&cur.inner, k),
                        Operation::Prod => unreached(),
                    };
                    let next_shape = engine_dims(&next_inner);
                    proof {
                        assert forall|u: int|
                            0 <= u < dims_of(next_inner).len() implies #[trigger] dims_of(
                            next_inner,
                        )[u] >= 1 by {
                            assert(dims_of(next_inner)[u] == if u < k as int {
                                cur.dims()[u]
                            } else {
                                cur.dims()[u + 1]
                            });
                        }
                    }
                    cur = CandleTensor { inner: next_inner, shape: next_shape };
                },
                None => {
                    proof {
                        assert(!axis_listed(axes_operations@, k as int));
                    }
                },
            }
        }
        Ok(cur)
    }

    /// Inserts a length-1 axis at each listed position, first pair first.
    #[verifier::loop_isolation(false)]
    fn insert_unit_axes(&self, naxes: usize, pos2len: &Vec<(usize, usize)>) -> (r: CandleTensor)
        requires
            self.wf(),
            self.dims().len() + pos2len@.len() == naxes as int,
            positions_strictly_increasing(pos2len@),
            forall|t: int|
                0 <= t < pos2len@.len() ==> ((#[trigger] pos2len@[t]).0 as int) < naxes as int,
        ensures
            r.synced(),
            r.dims() == insert_ones(self.dims(), pos2len@),
            r.cells() == self.cells(),
            r.dims().len() == naxes as int,
            forall|u: int| 0 <= u < r.dims().len() ==> #[trigger] r.dims()[u] >= 1,
    {
        let rank = self.shape.len();
        let n = pos2len.len();
        let ghost d0 = self.dims();
        let ghost c0 = self.cells();
        let cur_inner = engine_clone(&self.inner);
        let cur_shape = engine_dims(&cur_inner);
        let mut cur = CandleTensor { inner: cur_inner, shape: cur_shape };
        let mut k: usize = 0;
        while k < n
            invariant
                0 <= k <= n,
                cur.dims() == insert_ones(d0, pos2len@.take(k as int)),
                cur.cells() == c0,
                cur.dims().len() == rank + k,
                cur.synced(),
                forall|u: int| 0 <= u < cur.dims().len() ==> #[trigger] cur.dims()[u] >= 1,
            decreases n - k,
        {
            proof {
                if (k as int) < n - 1 {
                    lemma_increasing_gap(pos2len@, k as int, n as int - 1);
                }
                assert(pos2len@[k as int].0 <= rank + k);
                assert(pos2len@.take(k as int + 1).drop_last() =~= pos2len@.take(k as int));
                assert(pos2len@.take(k as int + 1) =~= pos2len@.take(k as int).push(
                    pos2len@[k as int],
                ));
                lemma_insert_ones_push(d0, pos2len@.take(k as int), pos2len@[k as int]);
            }
            let next_inner = engine_unsqueeze(&cur.inner, pos2len[k].0);
            let next_shape = engine_dims(&next_inner);
            proof {
                let p = pos2len@[k as int].0 as int;
                let old_dims = cur.dims();
                assert(dims_of(next_inner) == old_dims.insert(p, 1usize));
                assert forall|u: int|
                    0 <= u < dims_of(next_inner).len() implies #[trigger] dims_of(next_inner)[u]
                    >= 1 by {
                    if u < p {
                        assert(dims_of(next_inner)[u] == old_dims[u]);
                    } else if u == p {
                        assert(dims_of(next_inner)[u] == 1usize);
                    } else {
                        assert(dims_of(next_inner)[u] == old_dims[u - 1]);
                    }
                }
            }
            cur = CandleTensor { inner: next_inner, shape: next_shape };
            k += 1;
        }
        proof {
            assert(pos2len@.take(n as int) =~= pos2len@);
        }
        cur
    }

    /// Inserts new length-1 axes at the given positions, interpreted in the
    /// final axis numbering (so they must be strictly increasing and within
    /// the target rank), then expands each inserted axis to its requested
    /// length by tiling the data.
    #[verifier::loop_isolation(false)]
    pub fn add_axes(&self, naxes: usize, pos2len: &Vec<(usize, usize)>) -> (r: Result<
        CandleTensor,
        EinopsError,
    >)
        requires
            self.wf(),
            forall|t: int| 0 <= t < pos2len@.len() ==> (#[trigger] pos2len@[t]).1 >= 1,
            add_axes_valid(self.dims(), naxes as int, pos2len@) ==> product_scaled(
                insert_ones(self.dims(), pos2len@),
                repeat_factors(naxes as int, pos2len@),
            ) <= usize::MAX,
        ensures
            (r matches Ok(out) ==> {
                &&& add_axes_valid(self.dims(), naxes as int, pos2len@)
                &&& out.wf()
                &&& out.dims().len() == naxes
                &&& forall|i: int|
                    0 <= i < naxes ==> (#[trigger] out.dims()[i]) as int == insert_ones(
                        self.dims(),
                        pos2len@,
                    )[i] as int * repeat_factors(naxes as int, pos2len@)[i] as int
                &&& forall|t: int|
                    0 <= t < pos2len@.len() ==> out.dims()[(#[trigger] pos2len@[t]).0 as int]
                        == pos2len@[t].1
                &&& forall|idx: Seq<int>|
                    #[trigger] valid_index(out.dims(), idx) ==> out.cells()[flat_index(
                        out.dims(),
                        idx,
                    )] == self.cells()[flat_index(
                        insert_ones(self.dims(), pos2len@),
                        mod_index(idx, insert_ones(self.dims(), pos2len@)),
                    )]
            }),
            (r matches Err(e) ==> {
                ||| (e == EinopsError::RankMismatch && self.dims().len() + pos2len@.len()
                    != naxes)
                ||| (e == EinopsError::InvalidAxis && self.dims().len() + pos2len@.len() == naxes
                    && !(positions_strictly_increasing(pos2len@) && forall|t: int|
                    0 <= t < pos2len@.len() ==> ((#[trigger] pos2len@[t]).0 as int) < naxes))
            }),
    {
        let rank = self.shape.len();
        let n = pos2len.len();
        if naxes < n || rank != naxes - n {
            return Err(EinopsError::RankMismatch);
        }
        let mut i: usize = 0;
        while i < n
            invariant
                0 <= i <= n,
                forall|t: int| 0 <= t < i ==> ((#[trigger] pos2len@[t]).0) < naxes,
                forall|t: int| 1 <= t < i ==> ((#[trigger] pos2len@[t]).0) > pos2len@[t - 1].0,
            decreases n - i,
        {
            if pos2len[i].0 >= naxes {
                return Err(EinopsError::InvalidAxis);
            }
            if i > 0 && pos2len[i - 1].0 >= pos2len[i].0 {
                return Err(EinopsError::InvalidAxis);
            }
            i += 1;
        }
        proof {
            lemma_adjacent_implies_increasing(pos2len@);
        }
        let ghost d0 = self.dims();
        let cur = self.insert_unit_axes(naxes, pos2len);
        let reps = build_repeat_factors(naxes, pos2len);
        let out_inner = engine_repeat(&cur.inner, &reps);
        let out_shape = engine_dims(&out_inner);
        proof {
            let ins = insert_ones(d0, pos2len@);
            let rf = repeat_factors(naxes as int, pos2len@);
            assert forall|u: int|
                0 <= u < dims_of(out_inner).len() implies #[trigger] dims_of(out_inner)[u]
                >= 1 by {
                assert(dims_of(out_inner)[u] as int == ins[u] as int * rf[u] as int);
                assert(ins[u] as int * rf[u] as int >= 1) by (nonlinear_arith)
                    requires
                        ins[u] as int >= 1,
                        rf[u] as int >= 1,
                ;
            }
            assert forall|t: int|
                0 <= t < pos2len@.len() implies dims_of(out_inner)[(#[trigger] pos2len@[t]).0
                as int] == pos2len@[t].1 by {
                lemma_insert_ones_positions(d0, pos2len@, t);
                lemma_repeat_factors_at(naxes as int, pos2len@, t);
            }
        }
        Ok(CandleTensor { inner: out_inner, shape: out_shape })
    }
}

/// The per-final-axis repeat counts: each requested length at its position,
/// 1 everywhere else.
#[verifier::loop_isolation(false)]
fn build_repeat_factors(naxes: usize, pos2len: &Vec<(usize, usize)>) -> (r: Vec<usize>)
    requires
        forall|t: int|
            0 <= t < pos2len@.len() ==> ((#[trigger] pos2len@[t]).0 as int) < naxes as int,
        forall|t: int| 0 <= t < pos2len@.len() ==> (#[trigger] pos2len@[t]).1 >= 1,
    ensures
        r@ == repeat_factors(naxes as int, pos2len@),
        r@.len() == naxes,
        forall|u: int| 0 <= u < r@.len() ==> #[trigger] r@[u] >= 1,
{
    let n = pos2len.len();
    let mut reps: Vec<usize> = Vec::new();
    let mut k: usize = 0;
    while k < naxes
        invariant
            0 <= k <= naxes,
            reps@.len() == k,
            forall|u: int| 0 <= u < k ==> #[trigger] reps@[u] == 1usize,
        decreases naxes - k,
    {
        reps.push(1);
        k += 1;
    }
    proof {
        assert(reps@ =~= repeat_factors(naxes as int, pos2len@.take(0)));
    }
    let mut k: usize = 0;
    while k < n
        invariant
            0 <= k <= n,
            reps@.len() == naxes,
            reps@ == repeat_factors(naxes as int, pos2len@.take(k as int)),
        decreases n - k,
    {
        proof {
            assert(pos2len@.take(k as int + 1).drop_last() =~= pos2len@.take(k as int));
            assert(pos2len@.take(k as int + 1).last() == pos2len@[k as int]);
            assert(forall|u: int|
                0 <= u < pos2len@.take(k as int).len() ==> #[trigger] pos2len@.take(
                    k as int,
                )[u] == pos2len@[u]);
            lemma_repeat_factors_len(naxes as int, pos2len@.take(k as int));
        }
        reps.set(pos2len[k].0, pos2len[k].1);
        k += 1;
    }
    proof {
        assert(pos2len@.take(n as int) =~= pos2len@);
        lemma_repeat_factors_len(naxes as int, pos2len@);
        assert forall|u: int| 0 <= u < reps@.len() implies #[trigger] reps@[u] >= 1 by {
            lemma_reps_positive(naxes as int, pos2len@, u);
        }
    }
    reps
}

/// Every repeat factor is at least one: it is either 1 or a requested
/// length, and requested lengths are at least one.
proof fn lemma_reps_positive(naxes: int, pairs: Seq<(usize, usize)>, u: int)
    requires
        forall|t: int| 0 <= t < pairs.len() ==> (#[trigger] pairs[t]).1 >= 1,
        forall|t: int| 0 <= t < pairs.len() ==> ((#[trigger] pairs[t]).0 as int) < naxes,
        0 <= u < naxes,
    ensures
        repeat_factors(naxes, pairs)[u] >= 1,
    decreases pairs.len(),
{
    lemma_repeat_factors_len(naxes, pairs);
    if pairs.len() > 0 {
        assert(forall|t: int|
            0 <= t < pairs.drop_last().len() ==> #[trigger] pairs.drop_last()[t] == pairs[t]);
        lemma_reps_positive(naxes, pairs.drop_last(), u);
        lemma_repeat_factors_len(naxes, pairs.drop_last());
        let prev = repeat_factors(naxes, pairs.drop_last());
        let pr = pairs.last();
        assert(pr.1 >= 1);
        if u == pr.0 as int {
            assert(prev.update(pr.0 as int, pr.1)[u] == pr.1);
        } else {
            assert(prev.update(pr.0 as int, pr.1)[u] == prev[u]);
        }
    }
}

} // verus!
