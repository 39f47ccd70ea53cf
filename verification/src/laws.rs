//! What holds of every run: of the selection that a sampler makes, and of
//! the way in which single pulls add up to that selection.

use vstd::prelude::*;
use vstd::arithmetic::div_mod::{lemma_mod_adds, lemma_mod_multiples_vanish};
use crate::grid::{distance, fast_forward, lemma_fast_forward, slots_skipped};
use crate::selection::{chosen, first_candidate, picks, selection};
use crate::error::TimelapseError;
use crate::state::SamplerState;

verus! {

/// The selected values are input values, taken in the order of the input:
/// the places of the selections lie in the input, from `cursor` on, and
/// strictly increase.
pub proof fn lemma_picks_in_input_order(
    input: Seq<i32>,
    cursor: int,
    target: int,
    increment: int,
    threshold: int,
)
    ensures
        forall|k: int|
            0 <= k < picks(input, cursor, target, increment, threshold).len() ==> cursor <= (
            #[trigger] picks(input, cursor, target, increment, threshold)[k]).index < input.len(),
        forall|k: int, l: int|
            0 <= k < l < picks(input, cursor, target, increment, threshold).len() ==> picks(
                input,
                cursor,
                target,
                increment,
                threshold,
            )[k].index < picks(input, cursor, target, increment, threshold)[l].index,
    decreases input.len() - cursor,
{
    if 0 <= cursor < input.len() && !(cursor + 1 < input.len() && input[cursor + 1]
        < input[cursor]) {
        let point = fast_forward(target, input[cursor] as int, increment, threshold);
        let all = picks(input, cursor, target, increment, threshold);
        if chosen(input, cursor, point, threshold) {
            let rest = picks(input, cursor + 1, point + increment, increment, threshold);
            lemma_picks_in_input_order(input, cursor + 1, point + increment, increment, threshold);
            assert forall|k: int| 0 <= k < all.len() implies cursor <= (#[trigger] all[k]).index
                < input.len() by {
                if k > 0 {
                    assert(all[k] == rest[k - 1]);
                }
            }
            assert forall|k: int, l: int| 0 <= k < l < all.len() implies all[k].index
                < all[l].index by {
                assert(all[l] == rest[l - 1]);
                if k > 0 {
                    assert(all[k] == rest[k - 1]);
                }
            }
        } else {
            lemma_picks_in_input_order(input, cursor + 1, point, increment, threshold);
            assert(all == picks(input, cursor + 1, point, increment, threshold));
        }
    }
}

/// Every selected value lies within `threshold` of the sampling point that
/// it is matched to.
pub proof fn lemma_picks_within_threshold(
    input: Seq<i32>,
    cursor: int,
    target: int,
    increment: int,
    threshold: int,
)
    ensures
        forall|k: int|
            0 <= k < picks(input, cursor, target, increment, threshold).len() ==> distance(
                input[(#[trigger] picks(input, cursor, target, increment, threshold)[k]).index] as int,
                picks(input, cursor, target, increment, threshold)[k].target,
            ) <= threshold,
    decreases input.len() - cursor,
{
    if 0 <= cursor < input.len() && !(cursor + 1 < input.len() && input[cursor + 1]
        < input[cursor]) {
        let point = fast_forward(target, input[cursor] as int, increment, threshold);
        let all = picks(input, cursor, target, increment, threshold);
        if chosen(input, cursor, point, threshold) {
            let rest = picks(input, cursor + 1, point + increment, increment, threshold);
            lemma_picks_within_threshold(
                input,
                cursor + 1,
                point + increment,
                increment,
                threshold,
            );
            assert forall|k: int| 0 <= k < all.len() implies distance(
                input[(#[trigger] all[k]).index] as int,
                all[k].target,
            ) <= threshold by {
                if k > 0 {
                    assert(all[k] == rest[k - 1]);
                }
            }
        } else {
            lemma_picks_within_threshold(input, cursor + 1, point, increment, threshold);
            assert(all == picks(input, cursor + 1, point, increment, threshold));
        }
    }
}

/// The sampling points of the selections lie on the grid `target`,
/// `target + increment`, `target + 2 * increment`, ..., and each lies at least
/// one increment after the one before it, so that no sampling point is
/// matched twice.
pub proof fn lemma_picks_targets(
    input: Seq<i32>,
    cursor: int,
    target: int,
    increment: int,
    threshold: int,
)
    requires
        0 <= threshold < increment,
    ensures
        forall|k: int|
            0 <= k < picks(input, cursor, target, increment, threshold).len() ==> {
                let point = (#[trigger] picks(input, cursor, target, increment, threshold)[k]).target;
                &&& target <= point
                &&& (point - target) % increment == 0
                &&& point == target || target + increment <= point
            },
        forall|k: int, l: int|
            0 <= k < l < picks(input, cursor, target, increment, threshold).len() ==> picks(
                input,
                cursor,
                target,
                increment,
                threshold,
            )[k].target + increment <= picks(input, cursor, target, increment, threshold)[l].target,
    decreases input.len() - cursor,
{
    if 0 <= cursor < input.len() && !(cursor + 1 < input.len() && input[cursor + 1]
        < input[cursor]) {
        let all = picks(input, cursor, target, increment, threshold);
        let point = fast_forward(target, input[cursor] as int, increment, threshold);
        let skipped = slots_skipped(target, input[cursor] as int, increment, threshold);
        lemma_fast_forward(target, input[cursor] as int, increment, threshold);
        lemma_mod_multiples_vanish(skipped, 0, increment);
        assert((point - target) % increment == 0);
        if chosen(input, cursor, point, threshold) {
            let rest = picks(input, cursor + 1, point + increment, increment, threshold);
            lemma_picks_targets(input, cursor + 1, point + increment, increment, threshold);
            assert forall|k: int| 0 <= k < all.len() implies {
                let p = (#[trigger] all[k]).target;
                &&& target <= p
                &&& (p - target) % increment == 0
                &&& p == target || target + increment <= p
            } by {
                if k > 0 {
                    let p = rest[k - 1].target;
                    assert(all[k] == rest[k - 1]);
                    lemma_mod_multiples_vanish(1, point - target, increment);
                    lemma_mod_adds(p - (point + increment), point + increment - target, increment);
                }
            }
        } else {
            let rest = picks(input, cursor + 1, point, increment, threshold);
            lemma_picks_targets(input, cursor + 1, point, increment, threshold);
            assert forall|k: int| 0 <= k < all.len() implies {
                let p = (#[trigger] all[k]).target;
                &&& target <= p
                &&& (p - target) % increment == 0
                &&& p == target || target + increment <= p
            } by {
                let p = rest[k].target;
                lemma_mod_adds(p - point, point - target, increment);
            }
        }
    }
}

/// Each selection is the closest match for its sampling point. Every
/// candidate passed over since the selection before it lies strictly
/// farther from that point than the selected value, and the value that
/// follows the selected one in the input does not lie strictly closer: of
/// two values at the same distance the earlier one is selected.
pub proof fn lemma_picks_closest(
    input: Seq<i32>,
    cursor: int,
    target: int,
    increment: int,
    threshold: int,
)
    requires
        0 <= threshold < increment,
    ensures
        forall|k: int, j: int|
            #![trigger picks(input, cursor, target, increment, threshold)[k], input[j]]
            0 <= k < picks(input, cursor, target, increment, threshold).len() && first_candidate(
                picks(input, cursor, target, increment, threshold),
                k,
                cursor,
            ) <= j < picks(input, cursor, target, increment, threshold)[k].index ==> distance(
                input[j] as int,
                picks(input, cursor, target, increment, threshold)[k].target,
            ) > distance(
                input[picks(input, cursor, target, increment, threshold)[k].index] as int,
                picks(input, cursor, target, increment, threshold)[k].target,
            ),
        forall|k: int|
            0 <= k < picks(input, cursor, target, increment, threshold).len() && (
            #[trigger] picks(input, cursor, target, increment, threshold)[k]).index + 1
                < input.len() ==> distance(
                input[picks(input, cursor, target, increment, threshold)[k].index] as int,
                picks(input, cursor, target, increment, threshold)[k].target,
            ) <= distance(
                input[picks(input, cursor, target, increment, threshold)[k].index + 1] as int,
                picks(input, cursor, target, increment, threshold)[k].target,
            ),
    decreases input.len() - cursor,
{
    if 0 <= cursor < input.len() && !(cursor + 1 < input.len() && input[cursor + 1]
        < input[cursor]) {
        let all = picks(input, cursor, target, increment, threshold);
        let point = fast_forward(target, input[cursor] as int, increment, threshold);
        if chosen(input, cursor, point, threshold) {
            let rest = picks(input, cursor + 1, point + increment, increment, threshold);
            lemma_picks_closest(input, cursor + 1, point + increment, increment, threshold);
            assert forall|k: int, j: int|
                #![trigger all[k], input[j]]
                0 <= k < all.len() && first_candidate(all, k, cursor) <= j
                    < all[k].index implies distance(input[j] as int, all[k].target) > distance(
                input[all[k].index] as int,
                all[k].target,
            ) by {
                assert(all[k] == rest[k - 1]);
                if k > 1 {
                    assert(all[k - 1] == rest[k - 2]);
                }
                assert(first_candidate(rest, k - 1, cursor + 1) == first_candidate(
                    all,
                    k,
                    cursor,
                ));
            }
            assert forall|k: int| 0 <= k < all.len() && (#[trigger] all[k]).index + 1
                < input.len() implies distance(input[all[k].index] as int, all[k].target)
                <= distance(input[all[k].index + 1] as int, all[k].target) by {
                if k > 0 {
                    assert(all[k] == rest[k - 1]);
                }
            }
        } else {
            let rest = picks(input, cursor + 1, point, increment, threshold);
            assert(all == rest);
            lemma_picks_closest(input, cursor + 1, point, increment, threshold);
            assert forall|k: int, j: int|
                #![trigger all[k], input[j]]
                0 <= k < all.len() && first_candidate(all, k, cursor) <= j
                    < all[k].index implies distance(input[j] as int, all[k].target) > distance(
                input[all[k].index] as int,
                all[k].target,
            ) by {
                if k == 0 && j == cursor {
                    lemma_fast_forward(target, input[cursor] as int, increment, threshold);
                    lemma_picks_targets(input, cursor + 1, point, increment, threshold);
                    lemma_picks_within_threshold(input, cursor + 1, point, increment, threshold);
                    lemma_picks_in_input_order(input, cursor + 1, point, increment, threshold);
                    let first = rest[0];
                    assert(input[cursor] < point);
                    if first.target == point && distance(input[cursor] as int, point)
                        <= threshold && first.index > cursor + 1 {
                        assert(first_candidate(rest, 0, cursor + 1) <= cursor + 1 < rest[0].index);
                        assert(distance(input[cursor + 1] as int, rest[0].target) > distance(
                            input[rest[0].index] as int,
                            rest[0].target,
                        ));
                    }
                } else {
                    assert(first_candidate(rest, k, cursor + 1) <= j);
                }
            }
        }
    }
}

/// Single pulls add up to the selection of the whole run. A pull that yields
/// a value yields the first of the selections still to come, and leaves the
/// others to come; a pull that yields nothing, or fails, finds no selection
/// left. A pull fails only on input that is out of order, and reports the
/// end only of input that is in order.
pub proof fn lemma_pull_follows_picks(state: SamplerState)
    requires
        state.well_formed(),
    ensures
        state.pull().state.well_formed(),
        match state.pull().result {
            Ok(Some(value)) => {
                &&& state.remaining_picks().len() > 0
                &&& value == state.input[state.remaining_picks()[0].index]
                &&& state.pull().state.remaining_picks() == state.remaining_picks().drop_first()
                &&& state.remaining_values() == seq![value] + state.pull().state.remaining_values()
                &&& state.pull().state.remaining_sorted() == state.remaining_sorted()
            },
            Ok(None) => state.remaining_picks().len() == 0 && state.remaining_sorted(),
            Err(_) => state.remaining_picks().len() == 0 && !state.remaining_sorted(),
        },
    decreases state.input.len() - state.position,
{
    let input = state.input;
    let cursor = state.cursor();
    if state.position < input.len() {
        let current = input[state.position as int];
        match state.pending {
            None => {
                let next = state.shifted(current, state.target);
                lemma_pull_follows_picks(next);
                assert(next.cursor() == cursor);
            },
            Some(prev) => {
                let point = state.judged_at(prev);
                if current < prev {
                } else if state.within_reach(prev) && state.beats(prev, current) {
                    let next = state.shifted(current, point + state.increment);
                    assert(next.cursor() == cursor + 1);
                    assert(state.remaining_picks().drop_first() =~= next.remaining_picks());
                    assert(state.remaining_values() =~= seq![prev] + next.remaining_values());
                    assert(next.remaining_sorted() == state.remaining_sorted());
                } else {
                    let next = state.shifted(current, point);
                    lemma_pull_follows_picks(next);
                    assert(next.cursor() == cursor + 1);
                    assert(next.remaining_sorted() == state.remaining_sorted());
                }
            },
        }
    } else {
        match state.pending {
            None => {},
            Some(prev) => {
                let point = state.judged_at(prev);
                let end = input.len() as int;
                assert(picks(input, end, point + state.increment, state.increment, state.threshold).len()
                    == 0);
                assert(picks(input, end, point, state.increment, state.threshold).len() == 0);
                if state.within_reach(prev) {
                    let next = state.pull().state;
                    assert(state.remaining_picks().drop_first() =~= next.remaining_picks());
                    assert(state.remaining_values() =~= seq![prev] + next.remaining_values());
                }
            },
        }
    }
}

/// A pull never goes back. It leaves the input and the parameters as they
/// are and reads on from where the sampler stood. The target stays where it
/// is or moves forward by a whole number of increments. A pull that yields a
/// value moves on to a later candidate.
pub proof fn lemma_pull_advances(state: SamplerState)
    requires
        state.well_formed(),
    ensures
        state.pull().state.input == state.input,
        state.pull().state.increment == state.increment,
        state.pull().state.threshold == state.threshold,
        state.position <= state.pull().state.position <= state.input.len(),
        state.cursor() <= state.pull().state.cursor(),
        state.pull().result matches Ok(Some(_)) ==> state.cursor() < state.pull().state.cursor(),
        state.target <= state.pull().state.target,
        (state.pull().state.target - state.target) % state.increment == 0,
    decreases state.input.len() - state.position,
{
    let increment = state.increment;
    if state.position < state.input.len() {
        let current = state.input[state.position as int];
        match state.pending {
            None => {
                lemma_pull_advances(state.shifted(current, state.target));
            },
            Some(prev) => {
                let point = state.judged_at(prev);
                let skipped = slots_skipped(state.target, prev as int, increment, state.threshold);
                lemma_fast_forward(state.target, prev as int, increment, state.threshold);
                lemma_mod_multiples_vanish(skipped, 0, increment);
                if current < prev {
                } else if state.within_reach(prev) && state.beats(prev, current) {
                    lemma_mod_multiples_vanish(1, point - state.target, increment);
                } else {
                    let next = state.shifted(current, point);
                    lemma_pull_advances(next);
                    lemma_mod_adds(next.pull().state.target - point, point - state.target, increment);
                }
            },
        }
    } else {
        match state.pending {
            None => {},
            Some(prev) => {
                let skipped = slots_skipped(state.target, prev as int, increment, state.threshold);
                lemma_fast_forward(state.target, prev as int, increment, state.threshold);
                lemma_mod_multiples_vanish(skipped, 0, increment);
            },
        }
    }
}

/// A pull fails exactly where the input breaks its order. The sampler has
/// then read up to the first value, from the pending one on, that is smaller
/// than the value before it, holds that earlier value as pending, and has
/// consumed neither.
pub proof fn lemma_pull_failure(state: SamplerState)
    requires
        state.well_formed(),
        state.pull().result is Err,
    ensures
        state.pull().result == Err::<Option<i32>, TimelapseError>(TimelapseError::Unsorted),
        1 <= state.pull().state.position < state.input.len(),
        state.position <= state.pull().state.position,
        state.input[state.pull().state.position as int] < state.input[state.pull().state.position
            - 1],
        state.pull().state.pending == Some(state.input[state.pull().state.position - 1]),
        forall|j: int|
            state.cursor() < j < state.pull().state.position ==> state.input[j - 1]
                <= #[trigger] state.input[j],
    decreases state.input.len() - state.position,
{
    if state.position < state.input.len() {
        let current = state.input[state.position as int];
        match state.pending {
            None => {
                lemma_pull_failure(state.shifted(current, state.target));
            },
            Some(prev) => {
                if current < prev {
                } else if state.within_reach(prev) && state.beats(prev, current) {
                } else {
                    lemma_pull_failure(state.shifted(current, state.judged_at(prev)));
                }
            },
        }
    }
}

/// A failure is final: a sampler that has failed fails again on every later
/// pull, in the same way, and stays as it is.
pub proof fn lemma_pull_after_failure(state: SamplerState)
    requires
        state.well_formed(),
        state.pull().result is Err,
    ensures
        state.pull().state.pull() == state.pull(),
    decreases state.input.len() - state.position,
{
    if state.position < state.input.len() {
        let current = state.input[state.position as int];
        match state.pending {
            None => {
                lemma_pull_after_failure(state.shifted(current, state.target));
            },
            Some(prev) => {
                if current < prev {
                } else if state.within_reach(prev) && state.beats(prev, current) {
                } else {
                    lemma_pull_after_failure(state.shifted(current, state.judged_at(prev)));
                }
            },
        }
    }
}

/// The end is final: once a pull has reported the end of the output, every
/// later pull reports it too, and the sampler stays as it is.
pub proof fn lemma_pull_after_end(state: SamplerState)
    requires
        state.well_formed(),
        state.pull().result == Ok::<Option<i32>, TimelapseError>(None),
    ensures
        state.pull().state.pull().result == Ok::<Option<i32>, TimelapseError>(None),
        state.pull().state.pull().state == state.pull().state,
    decreases state.input.len() - state.position,
{
    if state.position < state.input.len() {
        let current = state.input[state.position as int];
        match state.pending {
            None => {
                lemma_pull_after_end(state.shifted(current, state.target));
            },
            Some(prev) => {
                if current < prev {
                } else if state.within_reach(prev) && state.beats(prev, current) {
                } else {
                    lemma_pull_after_end(state.shifted(current, state.judged_at(prev)));
                }
            },
        }
    } else {
        match state.pending {
            None => {},
            Some(prev) => {
                let point = state.judged_at(prev);
                lemma_fast_forward(state.target, prev as int, state.increment, state.threshold);
                lemma_fast_forward(point, prev as int, state.increment, state.threshold);
            },
        }
    }
}

/// A sampler that has read nothing yet has the selection of the whole run
/// still to come.
pub proof fn lemma_initial_selection(input: Seq<i32>, start: int, increment: int, threshold: int)
    requires
        0 <= threshold < increment,
    ensures
        SamplerState::initial(input, start, increment, threshold).well_formed(),
        SamplerState::initial(input, start, increment, threshold).remaining_picks() == selection(
            input,
            start,
            increment,
            threshold,
        ),
{
}

/// What a pull yields, and the state it leaves, depend on nothing but the
/// input, the parameters and the progress made so far: samplers in the same
/// state behave alike.
pub proof fn lemma_pull_deterministic(first: SamplerState, second: SamplerState)
    requires
        first.input == second.input,
        first.position == second.position,
        first.pending == second.pending,
        first.target == second.target,
        first.increment == second.increment,
        first.threshold == second.threshold,
    ensures
        first.pull() == second.pull(),
        first.remaining_picks() == second.remaining_picks(),
{
}

} // verus!
