use vstd::prelude::*;
use crate::action::Action;
use crate::rand::genrand;

verus! {

/// The pluggable action chooser used while expanding (pick one untried
/// action) and while simulating (pick the next move of a play-out). It
/// must never be called with an empty candidate list, always answers
/// with one of the candidates, and short-circuits deterministically on
/// a single candidate.
pub trait RolloutPolicy<M, S, A: Action> {
    fn pick(&self, state: &S, actions: &Vec<A>) -> (r: A)
        requires
            actions@.len() > 0,
        ensures
            actions@.contains(r),
            actions@.len() == 1 ==> r == actions@[0],
    ;
}

/// The default rollout policy: a uniform-random choice among the
/// candidates.
pub struct RandomRollout;

impl RandomRollout {
    pub fn new() -> Self {
        RandomRollout
    }
}

impl<M, S, A: Action> RolloutPolicy<M, S, A> for RandomRollout {
    fn pick(&self, _state: &S, actions: &Vec<A>) -> (r: A)
    {
        if actions.len() == 1 {
            return actions[0];
        }
        let index = genrand(0, actions.len());
        actions[index]
    }
}

} // verus!
