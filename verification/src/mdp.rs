use vstd::prelude::*;
use crate::rand::genrand;

verus! {

/// The cumulative weight of the first `k` outcomes of a transition
/// list, saturating exactly as the executable accumulator does.
pub open spec fn cumulative_weight<S>(ts: Seq<(S, u64)>, k: int) -> int
    decreases k,
{
    if k <= 0 {
        0
    } else {
        let c = cumulative_weight(ts, k - 1) + ts[k - 1].1;
        if c > u128::MAX as int {
            u128::MAX as int
        } else {
            c
        }
    }
}

/// The outcome the cumulative scan picks for the draw `g`: the first
/// whose cumulative weight meets or exceeds `g`, or outcome 0 if none
/// does.
pub open spec fn scan_pick_from<S>(ts: Seq<(S, u64)>, g: int, k: int) -> int
    decreases ts.len() - k,
{
    if 0 <= k < ts.len() {
        if cumulative_weight(ts, k + 1) >= g {
            k
        } else {
            scan_pick_from(ts, g, k + 1)
        }
    } else {
        0
    }
}

pub open spec fn scan_pick<S>(ts: Seq<(S, u64)>, g: int) -> int {
    scan_pick_from(ts, g, 0)
}

/// A finite Markov decision process, supplied by the embedding
/// application. The spec functions fix, once and for all, which states
/// are terminal, which actions are legal at a state and what reward a
/// transition carries; the executable methods must return exactly
/// those values, which is what makes the action enumeration stable
/// across repeated calls.
///
/// Rewards are plain signed integers (the embedder picks the unit) and
/// transition probabilities are weights in thousandths, as drawn by
/// `execute`.
pub trait MDP<S, A>: Sized {
    /// True exactly on the terminal states. The default body leaves
    /// the predicate unspecified; an implementation written for
    /// verification overrides it with the real terminal condition,
    /// since the contracts below tie the executable methods to it.
    open spec fn spec_is_terminal(&self, s: S) -> bool {
        arbitrary()
    }

    /// The legal actions at a state, in their enumeration order;
    /// unspecified by default, like `spec_is_terminal`.
    open spec fn spec_actions(&self, s: S) -> Seq<A> {
        arbitrary()
    }

    /// The reward for reaching `next` from `s` via `a`; unspecified by
    /// default, like `spec_is_terminal`.
    open spec fn spec_reward(&self, s: S, a: A, next: S) -> i64 {
        arbitrary()
    }

    /// The outcomes of playing `a` at `s`, as (state, weight) pairs;
    /// unspecified by default, like `spec_is_terminal`.
    open spec fn spec_transitions(&self, s: S, a: A) -> Seq<(S, u64)> {
        arbitrary()
    }

    /// The initial state; unspecified by default, like
    /// `spec_is_terminal`.
    open spec fn spec_initial_state(&self) -> S {
        arbitrary()
    }

    /// All states of this process; informational only.
    fn get_states(&self) -> Vec<S>;

    /// All actions with non-zero probability from this state: exactly
    /// `spec_actions`, pairwise distinct, and non-empty unless the
    /// state is terminal.
    fn get_actions(&self, state: &S) -> (r: Vec<A>)
        ensures
            r@ == self.spec_actions(*state),
            !self.spec_is_terminal(*state) ==> r@.len() > 0,
            forall|p: int, q: int| 0 <= p < q < r@.len() ==> r@[p] != r@[q],
    ;

    /// The non-zero-probability outcomes of an action, as (state,
    /// weight-in-thousandths) pairs; never empty.
    fn get_transitions(&self, state: &S, action: &A) -> (r: Vec<(S, u64)>)
        ensures
            r@ == self.spec_transitions(*state, *action),
            r@.len() > 0,
    ;

    /// The reward for transitioning from `state` to `next_state` via
    /// `action`.
    fn get_reward(&self, state: &S, action: &A, next_state: &S) -> (r: i64)
        ensures
            r == self.spec_reward(*state, *action, *next_state),
    ;

    /// True if and only if the state is terminal.
    fn is_terminal(&self, state: &S) -> (r: bool)
        ensures
            r == self.spec_is_terminal(*state),
    ;

    /// The discount factor, in thousandths, in (0, 1].
    fn get_discount_factor(&self) -> (r: u64)
        ensures
            0 < r <= 1000,
    ;

    /// The initial state of this process.
    fn get_initial_state(&self) -> (r: S)
        ensures
            r == self.spec_initial_state(),
    ;

    /// All goal states of this process; informational only.
    fn get_goal_states(&self) -> Vec<S>;

    /// A copy of a state value, equal to the original. States are
    /// immutable per value, so this is the only way the search ever
    /// duplicates one.
    fn clone_state(&self, state: &S) -> (r: S)
        ensures
            r == *state,
    ;

    /// Apply `action` to `state`: draw one uniform sample, scan the
    /// cumulative distribution of `get_transitions` and return the
    /// first outcome whose cumulative weight meets or exceeds the draw
    /// (first outcome if none does), with its reward and whether it is
    /// terminal.
    fn execute(&self, state: &S, action: &A) -> (r: (S, i64, bool))
        ensures
            exists|g: int|
                0 <= g < 1000 && 0 <= #[trigger] scan_pick(
                    self.spec_transitions(*state, *action),
                    g,
                ) < self.spec_transitions(*state, *action).len() && r.0 == self.spec_transitions(
                    *state,
                    *action,
                )[scan_pick(self.spec_transitions(*state, *action), g)].0,
            r.1 == self.spec_reward(*state, *action, r.0),
            r.2 == self.spec_is_terminal(r.0),
    {
        let mut transitions = self.get_transitions(state, action);
        let ghost ts = transitions@;
        let g = genrand(0, 1000) as u128;
        let mut cumulative: u128 = 0;
        let mut idx: usize = 0;
        let mut chosen: usize = 0;
        let mut found = false;
        while idx < transitions.len() && !found
            invariant
                idx <= ts.len(),
                ts.len() >= 1,
                transitions@ == ts,
                ts == self.spec_transitions(*state, *action),
                g < 1000,
                cumulative as int == cumulative_weight(ts, idx as int),
                !found ==> chosen == 0 && scan_pick(ts, g as int) == scan_pick_from(
                    ts,
                    g as int,
                    idx as int,
                ),
                found ==> chosen < ts.len() && chosen as int == scan_pick(ts, g as int),
            decreases ts.len() - idx,
        {
            let w = transitions[idx].1 as u128;
            cumulative = if cumulative <= u128::MAX - w {
                cumulative + w
            } else {
                u128::MAX
            };
            proof {
                assert(cumulative as int == cumulative_weight(ts, idx + 1));
            }
            if cumulative >= g {
                chosen = idx;
                found = true;
                proof {
                    assert(scan_pick_from(ts, g as int, idx as int) == idx as int);
                }
            }
            idx = idx + 1;
        }
        proof {
            if !found {
                assert(scan_pick_from(ts, g as int, idx as int) == 0);
            }
            assert(chosen as int == scan_pick(ts, g as int));
        }
        let pair = transitions.swap_remove(chosen);
        proof {
            assert(pair == ts[chosen as int]);
        }
        let next_state = pair.0;
        let reward = self.get_reward(state, action, &next_state);
        let done = self.is_terminal(&next_state);
        proof {
            assert(0 <= (g as int) && (g as int) < 1000 && 0 <= scan_pick(ts, g as int)
                < ts.len() && next_state == ts[scan_pick(ts, g as int)].0);
        }
        (next_state, reward, done)
    }
}

} // verus!
