//! What the split maths decides.
//!
//! A split's gain and its children's weights are sums and quotients of double-precision
//! numbers. Which of them are taken, and where a weight is cut off, is decided by comparing
//! numbers alone, and is here. Single-precision numbers are their 32 bits, double-precision
//! ones their 64.

use crate::float_bits::{
    is_nan_spec, le, le_spec, lt, lt_spec, same_spec, wide_is_nan, wide_lt, wide_lt_spec, wide_rank, wide_same,
    wide_same_spec, WIDE_SIGN_BIT,
};
use vstd::prelude::*;

verus! {

/// What the L1 penalty does to a sum of gradients.
#[derive(Clone, Copy, Debug, PartialEq, Eq, Structural)]
pub enum Shrink {
    /// The penalty is taken off.
    Lower,
    /// The penalty is put on.
    Raise,
    /// Nothing is left of the sum.
    Nothing,
}

/// The number with its sign turned round.
pub open spec fn negated_spec(bits: u64) -> u64 {
    if bits < WIDE_SIGN_BIT {
        (bits + WIDE_SIGN_BIT) as u64
    } else {
        (bits - WIDE_SIGN_BIT) as u64
    }
}

/// The number with its sign turned round.
pub fn negated(bits: u64) -> (turned: u64)
    ensures
        turned == negated_spec(bits),
{
    if bits < WIDE_SIGN_BIT {
        bits + WIDE_SIGN_BIT
    } else {
        bits - WIDE_SIGN_BIT
    }
}

/// How a sum of gradients is drawn toward zero by a penalty `alpha`: it keeps its sign, and
/// one that is no larger than the penalty is gone.
pub fn threshold_l1(sum_grad: u64, alpha: u64) -> (shrink: Shrink)
    ensures
        shrink == (if wide_lt_spec(alpha, sum_grad) {
            Shrink::Lower
        } else if wide_lt_spec(sum_grad, negated_spec(alpha)) {
            Shrink::Raise
        } else {
            Shrink::Nothing
        }),
        shrink == Shrink::Lower ==> wide_rank(sum_grad) > wide_rank(alpha),
        shrink == Shrink::Raise ==> wide_rank(sum_grad) < -wide_rank(alpha),
        shrink == Shrink::Nothing && !wide_is_nan(sum_grad) && !wide_is_nan(alpha) ==> -wide_rank(alpha) <= wide_rank(
            sum_grad,
        ) <= wide_rank(alpha),
{
    if wide_lt(alpha, sum_grad) {
        Shrink::Lower
    } else if wide_lt(sum_grad, negated(alpha)) {
        Shrink::Raise
    } else {
        Shrink::Nothing
    }
}

/// A Newton step cut off at `limit` in either direction.
pub open spec fn clamped(dw: u64, limit: u64) -> u64 {
    let size = if wide_lt_spec(dw, 0) {
        negated_spec(dw)
    } else {
        dw
    };
    if !wide_lt_spec(limit, size) {
        dw
    } else if wide_lt_spec(dw, 0) {
        negated_spec(limit)
    } else {
        limit
    }
}

/// Cut a Newton step off at `max_delta_step`, where there is a limit.
pub fn clamp_delta(dw: u64, max_delta_step: u64, has_limit: bool) -> (step: u64)
    ensures
        step == (if has_limit {
            clamped(dw, max_delta_step)
        } else {
            dw
        }),
        !has_limit ==> step == dw,
        has_limit && !wide_is_nan(dw) && !wide_is_nan(max_delta_step) && wide_rank(max_delta_step) >= 0
            ==> -wide_rank(max_delta_step) <= wide_rank(step) <= wide_rank(max_delta_step),
{
    if has_limit {
        let below: bool = wide_lt(dw, 0);
        let size: u64 = if below {
            negated(dw)
        } else {
            dw
        };
        if wide_lt(max_delta_step, size) {
            if below {
                negated(max_delta_step)
            } else {
                max_delta_step
            }
        } else {
            dw
        }
    } else {
        dw
    }
}

/// A step that was cut off is no longer than the limit, and points the same way.
pub proof fn lemma_clamped(dw: u64, limit: u64)
    requires
        !wide_is_nan(dw),
        !wide_is_nan(limit),
        wide_rank(limit) >= 0,
    ensures
        !wide_is_nan(clamped(dw, limit)),
        -wide_rank(limit) <= wide_rank(clamped(dw, limit)) <= wide_rank(limit),
        wide_rank(dw) <= 0 ==> wide_rank(clamped(dw, limit)) <= 0,
        wide_rank(dw) >= 0 ==> wide_rank(clamped(dw, limit)) >= 0,
        -wide_rank(limit) <= wide_rank(dw) <= wide_rank(limit) ==> clamped(dw, limit) == dw,
{
}

/// A weight brought into the box of a constrained node.
pub open spec fn boxed(w: u32, lower: u32, upper: u32) -> u32 {
    if lt_spec(w, lower) {
        lower
    } else if lt_spec(upper, w) {
        upper
    } else {
        w
    }
}

/// A child's weight, brought into its node's box where features are constrained.
pub fn child_weight(w: u32, lower: u32, upper: u32, has_constraint: bool) -> (weight: u32)
    ensures
        weight == (if has_constraint {
            boxed(w, lower, upper)
        } else {
            w
        }),
        !has_constraint ==> weight == w,
        has_constraint && !is_nan_spec(w) && le_spec(lower, upper) ==> le_spec(lower, weight) && le_spec(weight, upper),
        le_spec(lower, w) && le_spec(w, upper) ==> weight == w,
{
    if has_constraint {
        if lt(w, lower) {
            lower
        } else if lt(upper, w) {
            upper
        } else {
            w
        }
    } else {
        w
    }
}

/// A weight brought into a box is inside it, and stays where it is if it was.
pub proof fn lemma_boxed(w: u32, lower: u32, upper: u32)
    requires
        !is_nan_spec(w),
        le_spec(lower, upper),
    ensures
        le_spec(lower, boxed(w, lower, upper)),
        le_spec(boxed(w, lower, upper), upper),
        le_spec(lower, w) && le_spec(w, upper) ==> boxed(w, lower, upper) == w,
{
}

/// How a split is scored.
#[derive(Clone, Copy, Debug, PartialEq, Eq, Structural)]
pub enum SplitForm {
    /// Not at all: a child has no hessian, or less than is asked for.
    Rejected,
    /// From the children's weights, which something may have moved off the optimum.
    Weighted,
    /// In closed form, as nothing can move a child's weight.
    Closed,
}

/// Both children have hessian, and `least` of it.
pub open spec fn valid_split(lh: u64, rh: u64, least: u64) -> bool {
    &&& wide_lt_spec(0, lh)
    &&& wide_lt_spec(0, rh)
    &&& (wide_lt_spec(least, lh) || wide_same_spec(least, lh))
    &&& (wide_lt_spec(least, rh) || wide_same_spec(least, rh))
}

/// A split leaves each child a positive hessian that is not below what is asked for, and is
/// valid wherever it does: neither child is let off.
pub proof fn lemma_valid_split(lh: u64, rh: u64, least: u64)
    ensures
        valid_split(lh, rh, least) ==> !wide_is_nan(lh) && !wide_is_nan(rh) && !wide_is_nan(least),
        valid_split(lh, rh, least) ==> wide_rank(lh) > 0 && wide_rank(lh) >= wide_rank(least),
        valid_split(lh, rh, least) ==> wide_rank(rh) > 0 && wide_rank(rh) >= wide_rank(least),
        !wide_is_nan(lh) && !wide_is_nan(rh) && !wide_is_nan(least) && wide_rank(lh) > 0 && wide_rank(rh) > 0
            && wide_rank(lh) >= wide_rank(least) && wide_rank(rh) >= wide_rank(least) ==> valid_split(lh, rh, least),
{
}

/// It makes no difference which child is the left one.
pub proof fn lemma_valid_split_symmetric(lh: u64, rh: u64, least: u64)
    ensures
        valid_split(lh, rh, least) == valid_split(rh, lh, least),
{
}

/// Asking for less never rejects a split, and neither does a larger child.
pub proof fn lemma_valid_split_monotone(lh: u64, rh: u64, least: u64, more: u64, less: u64)
    requires
        valid_split(lh, rh, least),
        !wide_is_nan(more),
        wide_rank(more) >= wide_rank(lh),
        !wide_is_nan(less),
        wide_rank(less) <= wide_rank(least),
    ensures
        valid_split(more, rh, least),
        valid_split(rh, more, least),
        valid_split(lh, rh, less),
{
}

/// How a split whose children have hessians `lh` and `rh` is scored.
pub fn split_form(lh: u64, rh: u64, min_child_weight: u64, has_constraint: bool, has_limit: bool) -> (form: SplitForm)
    ensures
        form == (if !valid_split(lh, rh, min_child_weight) {
            SplitForm::Rejected
        } else if has_constraint || has_limit {
            SplitForm::Weighted
        } else {
            SplitForm::Closed
        }),
        form != SplitForm::Rejected ==> wide_rank(lh) > 0 && wide_rank(rh) > 0 && wide_rank(lh) >= wide_rank(
            min_child_weight,
        ) && wide_rank(rh) >= wide_rank(min_child_weight),
        !wide_is_nan(lh) && !wide_is_nan(rh) && !wide_is_nan(min_child_weight) && wide_rank(lh) > 0 && wide_rank(rh) > 0
            && wide_rank(lh) >= wide_rank(min_child_weight) && wide_rank(rh) >= wide_rank(min_child_weight) ==> form
            != SplitForm::Rejected,
        form == SplitForm::Weighted ==> has_constraint || has_limit,
        form == SplitForm::Closed ==> !has_constraint && !has_limit,
{
    let left: bool = wide_lt(0, lh) && (wide_lt(min_child_weight, lh) || wide_same(min_child_weight, lh));
    let right: bool = wide_lt(0, rh) && (wide_lt(min_child_weight, rh) || wide_same(min_child_weight, rh));
    if !left || !right {
        SplitForm::Rejected
    } else if has_constraint || has_limit {
        SplitForm::Weighted
    } else {
        SplitForm::Closed
    }
}

/// Whether children of these weights go the way their feature is held to.
pub fn monotone_ok(monotone: i32, left: u32, right: u32) -> (ok: bool)
    ensures
        ok == (if monotone == 0 {
            true
        } else if monotone > 0 {
            le_spec(left, right)
        } else {
            le_spec(right, left)
        }),
        monotone == 0 ==> ok,
        monotone > 0 && lt_spec(right, left) ==> !ok,
        monotone < 0 && lt_spec(left, right) ==> !ok,
        monotone > 0 && lt_spec(left, right) ==> ok,
        monotone < 0 && lt_spec(right, left) ==> ok,
        same_spec(left, right) ==> ok,
{
    if monotone == 0 {
        true
    } else if monotone > 0 {
        le(left, right)
    } else {
        le(right, left)
    }
}

/// Turning the sign round moves a number to the other side of zero, and turning it twice changes
/// nothing.
pub proof fn lemma_negated(bits: u64)
    ensures
        wide_rank(negated_spec(bits)) == -wide_rank(bits),
        wide_is_nan(negated_spec(bits)) == wide_is_nan(bits),
        negated_spec(negated_spec(bits)) == bits,
        negated_spec(bits) != bits,
{
}

/// A step and the opposite step are cut off alike.
pub proof fn lemma_clamped_symmetric(dw: u64, limit: u64)
    requires
        !wide_is_nan(dw),
        !wide_is_nan(limit),
        wide_rank(limit) >= 0,
    ensures
        wide_rank(clamped(negated_spec(dw), limit)) == -wide_rank(clamped(dw, limit)),
        wide_rank(dw) > wide_rank(limit) ==> clamped(dw, limit) == limit,
        wide_rank(dw) < -wide_rank(limit) ==> clamped(dw, limit) == negated_spec(limit),
{
}

/// A weight below its box is raised to the lower end, and one above it lowered to the upper.
pub proof fn lemma_boxed_ends(w: u32, lower: u32, upper: u32)
    requires
        le_spec(lower, upper),
    ensures
        lt_spec(w, lower) ==> boxed(w, lower, upper) == lower,
        lt_spec(upper, w) ==> boxed(w, lower, upper) == upper,
{
}

} // verus!
