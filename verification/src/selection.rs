//! A whole run seen at once: which input values a sampler selects, and the
//! sampling point that each of them is matched to.

use vstd::prelude::*;
use crate::grid::{distance, fast_forward};
use crate::state::SamplerState;

verus! {

/// One selected value: its place in the input, and the sampling point that
/// it was matched to.
pub struct Pick {
    pub index: int,
    pub target: int,
}

/// Whether the input is in non-decreasing order from `cursor` on.
pub open spec fn sorted_from(input: Seq<i32>, cursor: int) -> bool {
    forall|j: int| cursor < j < input.len() ==> input[j - 1] <= #[trigger] input[j]
}

/// Whether the value at `index` is selected for the sampling point `point`:
/// it lies within `threshold` of the point, and its successor, if it has
/// one, is not strictly closer to the point.
pub open spec fn chosen(input: Seq<i32>, index: int, point: int, threshold: int) -> bool {
    &&& distance(input[index] as int, point) <= threshold
    &&& index + 1 < input.len() ==> distance(input[index] as int, point) <= distance(
        input[index + 1] as int,
        point,
    )
}

/// The selections made from the value at `cursor` on, when `target` is the
/// next sampling point. Each value is judged against the first sampling
/// point that does not lie more than `threshold` below it; a selection moves
/// the target one increment further. Nothing is selected from a value on
/// that is larger than its successor.
pub open spec fn picks(
    input: Seq<i32>,
    cursor: int,
    target: int,
    increment: int,
    threshold: int,
) -> Seq<Pick>
    decreases input.len() - cursor,
{
    if cursor < 0 || cursor >= input.len() {
        Seq::empty()
    } else if cursor + 1 < input.len() && input[cursor + 1] < input[cursor] {
        Seq::empty()
    } else {
        let point = fast_forward(target, input[cursor] as int, increment, threshold);
        if chosen(input, cursor, point, threshold) {
            seq![Pick { index: cursor, target: point }] + picks(
                input,
                cursor + 1,
                point + increment,
                increment,
                threshold,
            )
        } else {
            picks(input, cursor + 1, point, increment, threshold)
        }
    }
}

/// The selections of a run over the whole of `input` that starts with the
/// sampling point `start`.
pub open spec fn selection(input: Seq<i32>, start: int, increment: int, threshold: int) -> Seq<
    Pick,
> {
    picks(input, 0, start, increment, threshold)
}

/// The place of the first candidate for the selection number `k`: the one
/// after the selection before it, or `cursor` for the first selection.
pub open spec fn first_candidate(all: Seq<Pick>, k: int, cursor: int) -> int {
    if k == 0 {
        cursor
    } else {
        all[k - 1].index + 1
    }
}

/// The input values that `chosen_picks` selects, in their order.
pub open spec fn picked_values(input: Seq<i32>, chosen_picks: Seq<Pick>) -> Seq<i32> {
    Seq::new(chosen_picks.len(), |k: int| input[chosen_picks[k].index])
}

impl SamplerState {
    /// The place in the input of the value that is judged next: that of the
    /// pending value if there is one, else that of the next value to read.
    pub open spec fn cursor(self) -> int {
        if self.pending is Some {
            self.position - 1
        } else {
            self.position as int
        }
    }

    /// The selections that are still to come.
    pub open spec fn remaining_picks(self) -> Seq<Pick> {
        picks(self.input, self.cursor(), self.target, self.increment, self.threshold)
    }

    /// The values that are still to come, as long as the input keeps its
    /// order.
    pub open spec fn remaining_values(self) -> Seq<i32> {
        picked_values(self.input, self.remaining_picks())
    }

    /// Whether the input is in order from the value that is judged next.
    pub open spec fn remaining_sorted(self) -> bool {
        sorted_from(self.input, self.cursor())
    }
}

} // verus!
