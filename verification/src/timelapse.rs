//! The sampler itself: a pull-based filter over a sorted sequence of
//! timestamps.

use vstd::prelude::*;
use crate::error::TimelapseError;
use crate::grid::{distance, fast_forward, lemma_fast_forward, lemma_fast_forward_step};
use crate::laws::{lemma_pull_advances, lemma_pull_failure, lemma_pull_follows_picks};
use crate::state::SamplerState;

verus! {

/// A sampler over a sorted sequence of timestamps.
///
/// It walks through its input once, from the front. For each sampling point
/// `start`, `start + increment`, `start + 2 * increment`, ... it yields the
/// input value closest to that point, if one lies within `threshold` of it.
#[derive(Debug)]
pub struct Timelapse {
    source: Vec<i32>,
    position: usize,
    target: i64,
    increment: i32,
    threshold: i32,
    prev: Option<i32>,
}

impl View for Timelapse {
    type V = SamplerState;

    closed spec fn view(&self) -> SamplerState {
        SamplerState {
            input: self.source@,
            position: self.position as nat,
            pending: self.prev,
            target: self.target as int,
            increment: self.increment as int,
            threshold: self.threshold as int,
        }
    }
}

impl Timelapse {
    /// The sampler's state is well formed, and its target is in the range
    /// that the input values and the parameters can take it to.
    pub closed spec fn wf(&self) -> bool {
        &&& self@.well_formed()
        &&& i32::MIN <= self.target <= 3 * i32::MAX
    }

    /// A well-formed sampler has a well-formed state.
    pub proof fn lemma_wf_state(&self)
        requires
            self.wf(),
        ensures
            self@.well_formed(),
    {
    }

    /// Builds a sampler over `source`, whose values are expected in
    /// non-decreasing order, with the first sampling point at `start`.
    ///
    /// Fails, without looking at `source`, unless `0 <= threshold < increment`.
    pub fn from_sorted_iterator(source: Vec<i32>, start: i32, increment: i32, threshold: i32) -> (made:
        Result<Timelapse, TimelapseError>)
        ensures
            made is Ok <==> 0 <= threshold < increment,
            made matches Ok(sampler) ==> sampler.wf() && sampler@ == SamplerState::initial(
                source@,
                start as int,
                increment as int,
                threshold as int,
            ),
            made matches Err(error) ==> error == TimelapseError::InvalidThreshold,
    {
        if threshold < 0 || threshold >= increment {
            return Err(TimelapseError::InvalidThreshold);
        }
        Ok(Timelapse { source, position: 0, target: start as i64, increment, threshold, prev: None })
    }

    /// The distance of `candidate` from the current target.
    pub fn delta(&self, candidate: i32) -> (d: i64)
        requires
            self.wf(),
        ensures
            d == distance(candidate as int, self@.target),
    {
        let gap: i64 = candidate as i64 - self.target;
        if gap < 0 {
            -gap
        } else {
            gap
        }
    }

    /// Moves the target to the sampling point that `candidate` is judged
    /// against.
    fn fast_forward(&mut self, candidate: i32)
        requires
            old(self).wf(),
        ensures
            final(self).wf(),
            final(self)@ == (SamplerState { target: old(self)@.judged_at(candidate), ..old(self)@ }),
    {
        while candidate as i64 > self.target && self.delta(candidate) > self.threshold as i64
            invariant
                self.wf(),
                self@.judged_at(candidate) == old(self)@.judged_at(candidate),
                self@ == (SamplerState { target: self@.target, ..old(self)@ }),
            decreases
                    (if candidate > self.target {
                        candidate - self.target
                    } else {
                        0
                    }),
        {
            proof {
                assert(self@.well_formed());
                lemma_fast_forward_step(
                    self.target as int,
                    candidate as int,
                    self.increment as int,
                    self.threshold as int,
                );
            }
            self.target = self.target + self.increment as i64;
        }
        proof {
            lemma_fast_forward(
                self.target as int,
                candidate as int,
                self.increment as int,
                self.threshold as int,
            );
        }
    }

    /// Yields the next selected value, `None` when the output has ended, or an
    /// error when the input turns out not to be sorted.
    pub fn next(&mut self) -> (result: Result<Option<i32>, TimelapseError>)
        requires
            old(self).wf(),
        ensures
            final(self).wf(),
            result == old(self)@.pull().result,
            final(self)@ == old(self)@.pull().state,
    {
        while self.position < self.source.len()
            invariant
                self.wf(),
                self@.pull() == old(self)@.pull(),
            decreases self.source.len() - self.position,
        {
            let current = self.source[self.position];
            if let Some(prev) = self.prev {
                if prev > current {
                    return Err(TimelapseError::Unsorted);
                }
                proof {
                    lemma_judged_again(self@, prev);
                }
                self.fast_forward(prev);
                let delta = self.delta(prev);
                if delta <= self.threshold as i64 && delta <= self.delta(current) {
                    self.target = self.target + self.increment as i64;
                    self.prev = Some(current);
                    self.position = self.position + 1;
                    return Ok(Some(prev));
                }
            }
            self.prev = Some(current);
            self.position = self.position + 1;
        }
        match self.prev {
            None => Ok(None),
            Some(prev) => {
                self.fast_forward(prev);
                if self.delta(prev) <= self.threshold as i64 {
                    self.prev = None;
                    Ok(Some(prev))
                } else {
                    Ok(None)
                }
            },
        }
    }

    /// Pulls until the output ends, and returns every value yielded on the
    /// way, in order. Fails if the input, from the value judged next, is not
    /// sorted.
    pub fn collect(self) -> (collected: Result<Vec<i32>, TimelapseError>)
        requires
            self.wf(),
        ensures
            collected is Ok <==> self@.remaining_sorted(),
            collected matches Ok(values) ==> values@ == self@.remaining_values(),
            collected matches Err(error) ==> error == TimelapseError::Unsorted,
    {
        let mut sampler = self;
        let mut values: Vec<i32> = Vec::new();
        assert(self@.remaining_values() =~= values@ + sampler@.remaining_values());
        loop
            invariant
                sampler.wf(),
                self@.remaining_sorted() == sampler@.remaining_sorted(),
                self@.remaining_values() == values@ + sampler@.remaining_values(),
            decreases sampler@.input.len() - sampler@.cursor(),
        {
            let ghost before = sampler@;
            proof {
                lemma_pull_follows_picks(before);
                lemma_pull_advances(before);
            }
            match sampler.next() {
                Ok(Some(value)) => {
                    let ghost so_far = values@;
                    values.push(value);
                    assert(so_far + (seq![value] + sampler@.remaining_values()) =~= values@
                        + sampler@.remaining_values());
                },
                Ok(None) => {
                    assert(values@ + before.remaining_values() =~= values@);
                    return Ok(values);
                },
                Err(error) => {
                    proof {
                        lemma_pull_failure(before);
                    }
                    return Err(error);
                },
            }
        }
    }
}

/// Once the target has been moved to the point that `candidate` is judged
/// against, the candidate is judged against that same point.
proof fn lemma_judged_again(state: SamplerState, candidate: i32)
    requires
        0 <= state.threshold < state.increment,
    ensures
        (SamplerState { target: state.judged_at(candidate), ..state }).judged_at(candidate)
            == state.judged_at(candidate),
{
    lemma_fast_forward(state.target, candidate as int, state.increment, state.threshold);
    lemma_fast_forward(
        state.judged_at(candidate),
        candidate as int,
        state.increment,
        state.threshold,
    );
}

} // verus!
