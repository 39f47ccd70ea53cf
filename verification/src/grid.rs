//! Arithmetic of sampling points: the distance of a value from a sampling
//! point, and the sampling point that a value is judged against.

use vstd::prelude::*;

verus! {

/// Absolute distance between a value and a sampling point.
pub open spec fn distance(value: int, target: int) -> int {
    if value >= target {
        value - target
    } else {
        target - value
    }
}

/// How many sampling points, counted from `target` in steps of `increment`,
/// lie more than `threshold` below `value`.
pub open spec fn slots_skipped(target: int, value: int, increment: int, threshold: int) -> int {
    if value - target > threshold {
        (value - target - threshold + increment - 1) / increment
    } else {
        0
    }
}

/// The sampling point that `value` is judged against: the first one, counted
/// from `target` in steps of `increment`, that does not lie more than
/// `threshold` below `value`.
pub open spec fn fast_forward(target: int, value: int, increment: int, threshold: int) -> int {
    target + increment * slots_skipped(target, value, increment, threshold)
}

/// `fast_forward` yields a point of the grid at or after `target`, within
/// `threshold` below `value` or above it, and the first such point.
pub proof fn lemma_fast_forward(target: int, value: int, increment: int, threshold: int)
    requires
        0 <= threshold < increment,
    ensures
        slots_skipped(target, value, increment, threshold) >= 0,
        slots_skipped(target, value, increment, threshold) == 0 <==> value - target <= threshold,
        value - fast_forward(target, value, increment, threshold) <= threshold,
        fast_forward(target, value, increment, threshold) == target
            || target + increment <= fast_forward(target, value, increment, threshold),
        fast_forward(target, value, increment, threshold) != target ==> value - (fast_forward(
            target,
            value,
            increment,
            threshold,
        ) - increment) > threshold,
{
    let gap = value - target - threshold;
    if gap > 0 {
        let k = (gap + increment - 1) / increment;
        assert(k * increment <= gap + increment - 1 < (k + 1) * increment) by (nonlinear_arith)
            requires
                increment > 0,
                k == (gap + increment - 1) / increment,
        ;
        assert(k >= 1) by (nonlinear_arith)
            requires
                increment > 0,
                gap > 0,
                gap + increment - 1 < (k + 1) * increment,
        ;
        assert(increment * k == k * increment) by (nonlinear_arith);
        assert((k + 1) * increment == k * increment + increment) by (nonlinear_arith);
        assert(k * increment >= increment) by (nonlinear_arith)
            requires
                k >= 1,
                increment > 0,
        ;
    }
}

/// Moving the target one increment on, while `value` still lies more than
/// `threshold` above it, does not change where `fast_forward` arrives.
pub proof fn lemma_fast_forward_step(target: int, value: int, increment: int, threshold: int)
    requires
        0 <= threshold < increment,
        value - target > threshold,
    ensures
        fast_forward(target + increment, value, increment, threshold) == fast_forward(
            target,
            value,
            increment,
            threshold,
        ),
{
    let gap = value - target - threshold;
    let k = (gap + increment - 1) / increment;
    assert(k * increment <= gap + increment - 1 < (k + 1) * increment) by (nonlinear_arith)
        requires
            increment > 0,
            k == (gap + increment - 1) / increment,
    ;
    assert((k + 1) * increment == k * increment + increment) by (nonlinear_arith);
    assert(increment * k == k * increment) by (nonlinear_arith);
    if gap - increment > 0 {
        let j = (gap - 1) / increment;
        assert(j * increment <= gap - 1 < (j + 1) * increment) by (nonlinear_arith)
            requires
                increment > 0,
                j == (gap - 1) / increment,
        ;
        assert((j + 1) * increment == j * increment + increment) by (nonlinear_arith);
        assert(increment * j == j * increment) by (nonlinear_arith);
        assert(j + 1 == k) by (nonlinear_arith)
            requires
                increment > 0,
                j * increment <= gap - 1 < j * increment + increment,
                k * increment <= gap + increment - 1 < k * increment + increment,
        ;
        assert(increment * (j + 1) == increment * j + increment) by (nonlinear_arith);
    } else {
        assert(k == 1) by (nonlinear_arith)
            requires
                increment > 0,
                0 < gap <= increment,
                k * increment <= gap + increment - 1 < k * increment + increment,
        ;
    }
}

} // verus!
