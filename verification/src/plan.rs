//! The axis-plan executor: applies an ordered list of axis operations,
//! threading each returned tensor into the next step.  A plan is
//! all-or-nothing: the first failing step's error is propagated unchanged
//! and the remaining steps are not attempted.

use vstd::prelude::*;

use crate::Operation;
use crate::algebra::{
    product, valid_index, flat_index, is_permutation, permuted_dims, transpose_rel, unique_axes,
    insert_ones, repeat_factors, product_scaled, positions_strictly_increasing, mod_index,
    reduce_dims_from,
};
use crate::backend::candle::{CandleTensor, reduce_from, lemma_reduce_from_dims, add_axes_valid};
use crate::error::EinopsError;

verus! {

/// One step of a rearrange plan, as the external expression front-end emits
/// them.
pub enum AxisOperation {
    /// Reinterpret the data under the given shape.
    Reshape(Vec<usize>),
    /// Permute the axis order.
    Transpose(Vec<usize>),
    /// Collapse the listed axes with their paired reduction operations.
    Reduce(Vec<(usize, Operation)>),
    /// Insert and expand axes up to the given target rank.
    AddAxes(usize, Vec<(usize, usize)>),
}

/// Whether one step succeeds on a tensor of the given shape.
pub open spec fn step_ok(d: Seq<usize>, op: AxisOperation) -> bool {
    match op {
        AxisOperation::Reshape(s) => product(s@) == product(d),
        AxisOperation::Transpose(p) => is_permutation(p@, d.len() as int),
        AxisOperation::Reduce(ops) => (forall|t: int|
            0 <= t < ops@.len() ==> ((#[trigger] ops@[t]).0 as int) < d.len()) && (forall|t: int|
            0 <= t < ops@.len() ==> !((#[trigger] ops@[t]).1 is Prod)),
        AxisOperation::AddAxes(naxes, pairs) => add_axes_valid(d, naxes as int, pairs@),
    }
}

/// The shape a successful step leaves.
pub open spec fn step_dims(d: Seq<usize>, op: AxisOperation) -> Seq<usize> {
    match op {
        AxisOperation::Reshape(s) => s@,
        AxisOperation::Transpose(p) => permuted_dims(d, p@),
        AxisOperation::Reduce(ops) => reduce_dims_from(d, ops@, 0, d.len() as int),
        AxisOperation::AddAxes(naxes, pairs) => Seq::new(
            naxes as nat,
            |i: int|
                (insert_ones(d, pairs@)[i] as int * repeat_factors(naxes as int, pairs@)[i] as int)
                    as usize,
        ),
    }
}

/// The preconditions of one step, beyond what the step itself rejects.
pub open spec fn step_requires(d: Seq<usize>, op: AxisOperation) -> bool {
    match op {
        AxisOperation::Reshape(s) => true,
        AxisOperation::Transpose(p) => true,
        AxisOperation::Reduce(ops) => unique_axes(ops@),
        AxisOperation::AddAxes(naxes, pairs) => (forall|t: int|
            0 <= t < pairs@.len() ==> (#[trigger] pairs@[t]).1 >= 1) && (add_axes_valid(
            d,
            naxes as int,
            pairs@,
        ) ==> product_scaled(insert_ones(d, pairs@), repeat_factors(naxes as int, pairs@))
            <= usize::MAX),
    }
}

/// Every step's preconditions hold along the successful prefix of the plan.
pub open spec fn plan_requires(d: Seq<usize>, plan: Seq<AxisOperation>) -> bool
    decreases plan.len(),
{
    plan.len() > 0 ==> {
        &&& step_requires(d, plan[0])
        &&& (step_ok(d, plan[0]) ==> plan_requires(step_dims(d, plan[0]), plan.drop_first()))
    }
}

/// The error one step fails with, exactly as the operations state it.
pub open spec fn step_err(d: Seq<usize>, op: AxisOperation, e: EinopsError) -> bool {
    match op {
        AxisOperation::Reshape(s) => e == EinopsError::ShapeMismatch && product(s@) != product(d),
        AxisOperation::Transpose(p) => e == EinopsError::InvalidPermutation && !is_permutation(
            p@,
            d.len() as int,
        ),
        AxisOperation::Reduce(ops) => {
            ||| (e == EinopsError::InvalidAxis && exists|t: int|
                0 <= t < ops@.len() && ((#[trigger] ops@[t]).0 as int) >= d.len())
            ||| (e == EinopsError::UnsupportedOperation && (forall|t: int|
                0 <= t < ops@.len() ==> ((#[trigger] ops@[t]).0 as int) < d.len()) && exists|
                t: int,
            | 0 <= t < ops@.len() && (#[trigger] ops@[t]).1 is Prod)
        },
        AxisOperation::AddAxes(naxes, pairs) => {
            ||| (e == EinopsError::RankMismatch && d.len() + pairs@.len() != naxes as int)
            ||| (e == EinopsError::InvalidAxis && d.len() + pairs@.len() == naxes as int && !(
            positions_strictly_increasing(pairs@) && forall|t: int|
                0 <= t < pairs@.len() ==> ((#[trigger] pairs@[t]).0 as int) < naxes as int))
        },
    }
}

/// The plan fails with `e`: some step fails with `e` after all earlier steps
/// succeeded.
pub open spec fn plan_fails(d: Seq<usize>, plan: Seq<AxisOperation>, e: EinopsError) -> bool
    decreases plan.len(),
{
    plan.len() > 0 && (step_err(d, plan[0], e) || (step_ok(d, plan[0]) && plan_fails(
        step_dims(d, plan[0]),
        plan.drop_first(),
        e,
    )))
}

/// What one successful step does to the tensor model.
pub open spec fn step_rel(
    d: Seq<usize>,
    c: Seq<int>,
    op: AxisOperation,
    rd: Seq<usize>,
    rc: Seq<int>,
) -> bool {
    &&& step_ok(d, op)
    &&& rd == step_dims(d, op)
    &&& match op {
        AxisOperation::Reshape(s) => rc == c,
        AxisOperation::Transpose(p) => transpose_rel(d, c, p@, rd, rc),
        AxisOperation::Reduce(ops) => rc == reduce_from(d, c, ops@, 0, d.len() as int).1,
        AxisOperation::AddAxes(naxes, pairs) => forall|idx: Seq<int>|
            #[trigger] valid_index(rd, idx) ==> rc[flat_index(rd, idx)] == c[flat_index(
                insert_ones(d, pairs@),
                mod_index(idx, insert_ones(d, pairs@)),
            )],
    }
}

/// The whole plan succeeds, transforming the model step by step.
pub open spec fn plan_rel(
    d: Seq<usize>,
    c: Seq<int>,
    plan: Seq<AxisOperation>,
    rd: Seq<usize>,
    rc: Seq<int>,
) -> bool
    decreases plan.len(),
{
    if plan.len() == 0 {
        rd == d && rc == c
    } else {
        exists|c1: Seq<int>|
            #[trigger] step_rel(d, c, plan[0], step_dims(d, plan[0]), c1) && plan_rel(
                step_dims(d, plan[0]),
                c1,
                plan.drop_first(),
                rd,
                rc,
            )
    }
}

/// Applies the plan steps in order, threading each result into the next
/// step.  Succeeds with the fully transformed tensor, or propagates the
/// first failure unchanged.
pub fn apply_plan(tensor: &CandleTensor, plan: &Vec<AxisOperation>) -> (r: Result<
    CandleTensor,
    EinopsError,
>)
    requires
        tensor.wf(),
        plan_requires(tensor.dims(), plan@),
    ensures
        (r matches Ok(out) ==> out.wf() && plan_rel(
            tensor.dims(),
            tensor.cells(),
            plan@,
            out.dims(),
            out.cells(),
        )),
        (r matches Err(e) ==> plan_fails(tensor.dims(), plan@, e)),
{
    proof {
        assert(plan@.skip(0) =~= plan@);
    }
    apply_plan_from(tensor, plan, 0)
}

fn apply_plan_from(tensor: &CandleTensor, plan: &Vec<AxisOperation>, i: usize) -> (r: Result<
    CandleTensor,
    EinopsError,
>)
    requires
        tensor.wf(),
        i <= plan@.len(),
        plan_requires(tensor.dims(), plan@.skip(i as int)),
    ensures
        (r matches Ok(out) ==> out.wf() && plan_rel(
            tensor.dims(),
            tensor.cells(),
            plan@.skip(i as int),
            out.dims(),
            out.cells(),
        )),
        (r matches Err(e) ==> plan_fails(tensor.dims(), plan@.skip(i as int), e)),
    decreases plan@.len() - i,
{
    let ghost d = tensor.dims();
    let ghost c = tensor.cells();
    let ghost sub = plan@.skip(i as int);
    if i == plan.len() {
        proof {
            assert(sub =~= Seq::<AxisOperation>::empty());
        }
        return Ok(tensor.duplicate());
    }
    proof {
        assert(sub[0] == plan@[i as int]);
        assert(sub.drop_first() =~= plan@.skip(i as int + 1));
    }
    let step_result = match &plan[i] {
        AxisOperation::Reshape(s) => tensor.reshape(s),
        AxisOperation::Transpose(p) => tensor.transpose(p),
        AxisOperation::Reduce(ops) => tensor.reduce_axes(ops),
        AxisOperation::AddAxes(naxes, pairs) => tensor.add_axes(*naxes, pairs),
    };
    match step_result {
        Ok(next) => {
            proof {
                lemma_step_dims_match(d, c, plan@[i as int], next.dims(), next.cells());
                assert(step_rel(d, c, sub[0], step_dims(d, sub[0]), next.cells()));
            }
            match apply_plan_from(&next, plan, i + 1) {
                Ok(out) => {
                    proof {
                        assert(plan_rel(d, c, sub, out.dims(), out.cells()));
                    }
                    Ok(out)
                },
                Err(e) => {
                    proof {
                        assert(plan_fails(d, sub, e));
                    }
                    Err(e)
                },
            }
        },
        Err(e) => {
            proof {
                assert(step_err(d, sub[0], e));
            }
            Err(e)
        },
    }
}

/// A successful step's result matches the step's functional shape and its
/// model relation.
proof fn lemma_step_dims_match(
    d: Seq<usize>,
    c: Seq<int>,
    op: AxisOperation,
    rd: Seq<usize>,
    rc: Seq<int>,
)
    requires
        match op {
            AxisOperation::Reshape(s) => product(s@) == product(d) && rd == s@ && rc == c,
            AxisOperation::Transpose(p) => is_permutation(p@, d.len() as int) && transpose_rel(
                d,
                c,
                p@,
                rd,
                rc,
            ),
            AxisOperation::Reduce(ops) => (forall|t: int|
                0 <= t < ops@.len() ==> ((#[trigger] ops@[t]).0 as int) < d.len()) && (forall|
                t: int,
            | 0 <= t < ops@.len() ==> !((#[trigger] ops@[t]).1 is Prod)) && rd == reduce_from(
                d,
                c,
                ops@,
                0,
                d.len() as int,
            ).0 && rc == reduce_from(d, c, ops@, 0, d.len() as int).1,
            AxisOperation::AddAxes(naxes, pairs) => add_axes_valid(d, naxes as int, pairs@)
                && rd.len() == naxes as int && (forall|u: int|
                0 <= u < naxes as int ==> (#[trigger] rd[u]) as int == insert_ones(d, pairs@)[u]
                    as int * repeat_factors(naxes as int, pairs@)[u] as int) && (forall|
                idx: Seq<int>,
            |
                #[trigger] valid_index(rd, idx) ==> rc[flat_index(rd, idx)] == c[flat_index(
                    insert_ones(d, pairs@),
                    mod_index(idx, insert_ones(d, pairs@)),
                )]),
        },
    ensures
        step_rel(d, c, op, rd, rc),
        rd == step_dims(d, op),
{
    match op {
        AxisOperation::Reshape(s) => {},
        AxisOperation::Transpose(p) => {},
        AxisOperation::Reduce(ops) => {
            lemma_reduce_from_dims(d, c, ops@, 0, d.len() as int);
        },
        AxisOperation::AddAxes(naxes, pairs) => {
            assert(rd =~= step_dims(d, op)) by {
                assert forall|u: int| 0 <= u < naxes as int implies rd[u] == step_dims(d, op)[u] by {
                    let x = insert_ones(d, pairs@)[u] as int * repeat_factors(
                        naxes as int,
                        pairs@,
                    )[u] as int;
                    assert(rd[u] as int == x);
                    assert(0 <= x <= usize::MAX);
                }
            }
        },
    }
}

} // verus!
