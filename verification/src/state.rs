//! The sampler as a mathematical state machine over its whole input.

use vstd::prelude::*;
use crate::error::TimelapseError;
use crate::grid::{distance, fast_forward};

verus! {

/// What a sampler is, seen from outside: the input it draws from, how far it
/// has read, the candidate it holds back, and its sampling parameters.
pub struct SamplerState {
    /// The whole input sequence.
    pub input: Seq<i32>,
    /// How many input values have been read.
    pub position: nat,
    /// The value read last, as long as it is neither emitted nor discarded.
    pub pending: Option<i32>,
    /// The next ideal sampling point.
    pub target: int,
    /// The distance between successive sampling points.
    pub increment: int,
    /// The largest distance allowed between an emitted value and its target.
    pub threshold: int,
}

/// What one pull yields: the value, the end of the output or a failure,
/// together with the state that the sampler is left in.
pub struct Pulled {
    pub result: Result<Option<i32>, TimelapseError>,
    pub state: SamplerState,
}

impl SamplerState {
    /// The state of a sampler that has read nothing yet.
    pub open spec fn initial(input: Seq<i32>, start: int, increment: int, threshold: int) -> Self {
        SamplerState { input, position: 0, pending: None, target: start, increment, threshold }
    }

    /// The threshold is non-negative and below the increment, the position
    /// lies within the input, and the pending value is the value read last.
    pub open spec fn well_formed(self) -> bool {
        &&& 0 <= self.threshold < self.increment
        &&& self.position <= self.input.len()
        &&& match self.pending {
            Some(value) => self.position >= 1 && value == self.input[self.position - 1],
            None => self.position == 0 || self.position == self.input.len(),
        }
    }

    /// The sampling point that `candidate` is judged against: the current
    /// target, moved past every point that the candidate has overshot by more
    /// than the threshold.
    pub open spec fn judged_at(self, candidate: i32) -> int {
        fast_forward(self.target, candidate as int, self.increment, self.threshold)
    }

    /// Whether `candidate` lies within the threshold of the point that it is
    /// judged against.
    pub open spec fn within_reach(self, candidate: i32) -> bool {
        distance(candidate as int, self.judged_at(candidate)) <= self.threshold
    }

    /// Whether `candidate` is at least as close as `successor` to the point
    /// that the candidate is judged against.
    pub open spec fn beats(self, candidate: i32, successor: i32) -> bool {
        distance(candidate as int, self.judged_at(candidate)) <= distance(
            successor as int,
            self.judged_at(candidate),
        )
    }

    /// The state after `current` has been read and has become the pending
    /// value, with `target` as the sampling point.
    pub open spec fn shifted(self, current: i32, target: int) -> Self {
        SamplerState {
            position: self.position + 1,
            pending: Some(current),
            target,
            ..self
        }
    }

    /// One pull: read on until a pending value is emitted, the input violates
    /// its order, or the input ends.
    ///
    /// A value that is read is first compared with the pending one; a smaller
    /// value is a failure, and the state stays as it is. Otherwise the pending
    /// value is emitted if it is within reach of the point it is judged
    /// against and the value just read is not strictly closer to that point;
    /// the target then moves one increment on. In every other case the pending
    /// value is dropped. At the end of the input the pending value is emitted
    /// if it is within reach.
    pub open spec fn pull(self) -> Pulled
        decreases self.input.len() - self.position,
    {
        if self.position < self.input.len() {
            let current = self.input[self.position as int];
            match self.pending {
                None => self.shifted(current, self.target).pull(),
                Some(prev) => {
                    let target = self.judged_at(prev);
                    if current < prev {
                        Pulled { result: Err(TimelapseError::Unsorted), state: self }
                    } else if self.within_reach(prev) && self.beats(prev, current) {
                        Pulled {
                            result: Ok(Some(prev)),
                            state: self.shifted(current, target + self.increment),
                        }
                    } else {
                        self.shifted(current, target).pull()
                    }
                },
            }
        } else {
            match self.pending {
                None => Pulled { result: Ok(None), state: self },
                Some(prev) => {
                    let target = self.judged_at(prev);
                    if self.within_reach(prev) {
                        Pulled {
                            result: Ok(Some(prev)),
                            state: SamplerState { pending: None, target, ..self },
                        }
                    } else {
                        Pulled { result: Ok(None), state: SamplerState { target, ..self } }
                    }
                },
            }
        }
    }
}

} // verus!
