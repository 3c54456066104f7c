use vstd::prelude::*;
use std::time::Duration;
use std::time::Instant;
use crate::action::Action;
use crate::fixed::exp_fp;
use crate::fixed::exp_neg_fp;
use crate::fixed::lemma_q_ge_trans;
use crate::fixed::lemma_q_lt_across;
use crate::fixed::q_fp;
use crate::fixed::q_less;
use crate::fixed::q_lt;
use crate::fixed::q_value_fp;
use crate::fixed::sat_add_i64;
use crate::fixed::sat_i64;
use crate::mdp::MDP;
use crate::node::lemma_legal_stats_preserved;
use crate::node::node_wf;
use crate::node::on_path;
use crate::node::same_but_stats;
use crate::node::tree_extends;
use crate::node::tree_legal;
use crate::node::tree_wf;
use crate::node::Node;
use crate::node::Tree;
use crate::policy::RolloutPolicy;
use crate::strategy::Strategy;
use crate::ucb1::UCB1;

verus! {

/// The root's child at position `k` of the root's children list.
pub open spec fn root_child<S, A>(t: Seq<Node<S, A>>, k: int) -> Node<S, A> {
    t[t[0].children@[k] as int]
}

/// The position of the most visited root child among positions
/// 0 ..= k; on equal visit counts the later position wins, so the
/// whole scan yields the last maximum.
pub open spec fn most_visited_upto<S, A>(t: Seq<Node<S, A>>, k: int) -> int
    decreases k,
{
    if k <= 0 {
        0
    } else {
        let b = most_visited_upto(t, k - 1);
        if root_child(t, k).visits >= root_child(t, b).visits {
            k
        } else {
            b
        }
    }
}

/// The position of the root child with the highest mean reward among
/// positions 0 ..= k, compared exactly as rationals; on ties the
/// earlier position wins.
pub open spec fn highest_q_upto<S, A>(t: Seq<Node<S, A>>, k: int) -> int
    decreases k,
{
    if k <= 0 {
        0
    } else {
        let b = highest_q_upto(t, k - 1);
        if q_lt(
            root_child(t, b).score as int,
            root_child(t, b).visits as nat,
            root_child(t, k).score as int,
            root_child(t, k).visits as nat,
        ) {
            k
        } else {
            b
        }
    }
}

/// The mean reward of the root child at position `k`, at scale SCALE.
pub open spec fn root_child_qfp<S, A>(t: Seq<Node<S, A>>, k: int) -> int {
    q_fp(root_child(t, k).score as int, root_child(t, k).visits as nat)
}

/// The largest scaled mean reward among root children 0 ..= k.
pub open spec fn max_qfp_upto<S, A>(t: Seq<Node<S, A>>, k: int) -> int
    decreases k,
{
    if k <= 0 {
        root_child_qfp(t, 0)
    } else {
        let m = max_qfp_upto(t, k - 1);
        if root_child_qfp(t, k) > m {
            root_child_qfp(t, k)
        } else {
            m
        }
    }
}

pub open spec fn to_nonneg(x: int) -> nat {
    if x >= 0 {
        x as nat
    } else {
        0
    }
}

/// The softmax weight of the root child at position `k`: the
/// exponential weight of its distance from the best mean reward
/// (subtracting the maximum first, as the usual stability shift).
pub open spec fn soft_weight<S, A>(t: Seq<Node<S, A>>, k: int) -> nat {
    exp_fp(
        to_nonneg(max_qfp_upto(t, t[0].children@.len() - 1) - root_child_qfp(t, k)),
    )
}

/// The sum of the softmax weights of root children at positions < k.
pub open spec fn wsum_upto<S, A>(t: Seq<Node<S, A>>, k: int) -> int
    decreases k,
{
    if k <= 0 {
        0
    } else {
        wsum_upto(t, k - 1) + soft_weight(t, k - 1)
    }
}

/// The softmax normalizer, floored above zero.
pub open spec fn soft_total<S, A>(t: Seq<Node<S, A>>) -> int {
    if wsum_upto(t, t[0].children@.len() as int) > 0 {
        wsum_upto(t, t[0].children@.len() as int)
    } else {
        1
    }
}

/// The position the probabilistic strategy selects for the draw `g`
/// (out of 10000): the first position whose cumulative weight share
/// meets or exceeds the draw, and position 0 if none does.
pub open spec fn softmax_pick_from<S, A>(t: Seq<Node<S, A>>, g: int, k: int) -> int
    decreases t[0].children@.len() - k,
{
    if 0 <= k < t[0].children@.len() {
        if 10000 * wsum_upto(t, k + 1) >= g * soft_total(t) {
            k
        } else {
            softmax_pick_from(t, g, k + 1)
        }
    } else {
        0
    }
}

pub open spec fn softmax_pick<S, A>(t: Seq<Node<S, A>>, g: int) -> int {
    softmax_pick_from(t, g, 0)
}

/// No root child's mean reward exceeds that of the child at position
/// `k` (exactly, as rationals).
pub open spec fn is_best_q_pos<S, A>(t: Seq<Node<S, A>>, k: int) -> bool {
    &&& 0 <= k < t[0].children@.len()
    &&& forall|m: int|
        0 <= m < t[0].children@.len() ==> !q_lt(
            root_child(t, k).score as int,
            root_child(t, k).visits as nat,
            (#[trigger] root_child(t, m)).score as int,
            root_child(t, m).visits as nat,
        )
}

/// What the MostVisited scan means: the position it yields carries the
/// highest visit count among positions 0 ..= k, and every later
/// position is strictly below it (the scan keeps the last maximum).
pub proof fn lemma_most_visited_upto_max<S, A>(t: Seq<Node<S, A>>, k: int)
    requires
        k >= 0,
    ensures
        0 <= most_visited_upto(t, k) <= k,
        forall|m: int|
            0 <= m <= k ==> (#[trigger] root_child(t, m)).visits <= root_child(
                t,
                most_visited_upto(t, k),
            ).visits,
        forall|m: int|
            most_visited_upto(t, k) < m <= k ==> (#[trigger] root_child(t, m)).visits
                < root_child(t, most_visited_upto(t, k)).visits,
    decreases k,
{
    if k > 0 {
        lemma_most_visited_upto_max(t, k - 1);
    }
}

/// What the HighestQValue scan means: no position among 0 ..= k holds
/// a strictly higher mean reward than the one it yields, and every
/// earlier position holds a strictly lower one (the scan keeps the
/// first maximum). Comparisons are exact, over the rationals.
pub proof fn lemma_highest_q_upto_max<S, A>(t: Seq<Node<S, A>>, k: int)
    requires
        k >= 0,
    ensures
        0 <= highest_q_upto(t, k) <= k,
        forall|m: int|
            0 <= m <= k ==> !q_lt(
                root_child(t, highest_q_upto(t, k)).score as int,
                root_child(t, highest_q_upto(t, k)).visits as nat,
                (#[trigger] root_child(t, m)).score as int,
                root_child(t, m).visits as nat,
            ),
        forall|m: int|
            0 <= m < highest_q_upto(t, k) ==> q_lt(
                (#[trigger] root_child(t, m)).score as int,
                root_child(t, m).visits as nat,
                root_child(t, highest_q_upto(t, k)).score as int,
                root_child(t, highest_q_upto(t, k)).visits as nat,
            ),
    decreases k,
{
    if k > 0 {
        lemma_highest_q_upto_max(t, k - 1);
        let b = highest_q_upto(t, k - 1);
        let w = highest_q_upto(t, k);
        if q_lt(
            root_child(t, b).score as int,
            root_child(t, b).visits as nat,
            root_child(t, k).score as int,
            root_child(t, k).visits as nat,
        ) {
            assert(w == k);
            assert forall|m: int| 0 <= m <= k implies !q_lt(
                root_child(t, w).score as int,
                root_child(t, w).visits as nat,
                (#[trigger] root_child(t, m)).score as int,
                root_child(t, m).visits as nat,
            ) by {
                if m < k {
                    crate::fixed::lemma_q_ge_trans(
                        root_child(t, k).score as int,
                        root_child(t, k).visits as nat,
                        root_child(t, b).score as int,
                        root_child(t, b).visits as nat,
                        root_child(t, m).score as int,
                        root_child(t, m).visits as nat,
                    );
                }
            }
            assert forall|m: int| 0 <= m < w implies q_lt(
                (#[trigger] root_child(t, m)).score as int,
                root_child(t, m).visits as nat,
                root_child(t, w).score as int,
                root_child(t, w).visits as nat,
            ) by {
                if m != b {
                    lemma_q_lt_across(
                        root_child(t, b).score as int,
                        root_child(t, b).visits as nat,
                        root_child(t, m).score as int,
                        root_child(t, m).visits as nat,
                        root_child(t, k).score as int,
                        root_child(t, k).visits as nat,
                    );
                }
            }
        } else {
            assert(w == b);
        }
    }
}

/// The probabilistic pick always lands on an existing child.
pub proof fn lemma_softmax_pick_range<S, A>(t: Seq<Node<S, A>>, g: int, k: int)
    requires
        t[0].children@.len() > 0,
        0 <= k,
    ensures
        0 <= softmax_pick_from(t, g, k) < t[0].children@.len(),
    decreases t[0].children@.len() - k,
{
    if k < t[0].children@.len() {
        if !(10000 * wsum_upto(t, k + 1) >= g * soft_total(t)) {
            lemma_softmax_pick_range(t, g, k + 1);
        }
    }
}

proof fn lemma_max_qfp_ge<S, A>(t: Seq<Node<S, A>>, k: int, p: int)
    requires
        0 <= p <= k,
    ensures
        max_qfp_upto(t, k) >= root_child_qfp(t, p),
    decreases k,
{
    if p < k {
        lemma_max_qfp_ge(t, k - 1, p);
    }
}

/// One legal play-out from `start` under `mdp`: each step records the
/// state it left, the action played, the state reached and the reward
/// received. States chain, only non-terminal states are left, only
/// legal actions are played, and each reward is the spec reward of
/// its transition.
pub open spec fn playout_ok<S, A, M: MDP<S, A>>(
    mdp: M,
    start: S,
    tr: Seq<(S, A, S, i64)>,
) -> bool {
    forall|j: int|
        0 <= j < tr.len() ==> ({
            let step = #[trigger] tr[j];
            &&& (if j == 0 {
                step.0 == start
            } else {
                step.0 == tr[j - 1].2
            })
            &&& !mdp.spec_is_terminal(step.0)
            &&& mdp.spec_actions(step.0).contains(step.1)
            &&& step.3 == mdp.spec_reward(step.0, step.1, step.2)
        })
}

/// The i64-saturated plain sum of the rewards of the first `k` steps
/// of a play-out.
pub open spec fn playout_sum<S, A>(tr: Seq<(S, A, S, i64)>, k: int) -> int
    decreases k,
{
    if k <= 0 {
        0
    } else {
        sat_i64(playout_sum(tr, k - 1) + tr[k - 1].3)
    }
}

proof fn lemma_playout_sum_push<S, A>(tr: Seq<(S, A, S, i64)>, x: (S, A, S, i64), k: int)
    requires
        0 <= k <= tr.len(),
    ensures
        playout_sum(tr.push(x), k) == playout_sum(tr, k),
    decreases k,
{
    if k > 0 {
        lemma_playout_sum_push(tr, x, k - 1);
        assert(tr.push(x)[k - 1] == tr[k - 1]);
    }
}

#[verifier::external_type_specification]
#[verifier::external_body]
pub struct ExInstant(Instant);

/// Relies on std::time::Instant::now: an opaque timestamp of the
/// moment of the call. Nothing is assumed about its value.
#[verifier::external_body]
fn now_instant() -> Instant {
    Instant::now()
}

/// Relies on std::time::Instant::elapsed: the wall-clock time that
/// passed since `start`. Nothing is assumed about its value.
#[verifier::external_body]
fn elapsed_since(start: &Instant) -> Duration {
    start.elapsed()
}

/// Relies on std::time::Duration::as_millis: the duration in whole
/// milliseconds. Nothing is assumed about its value.
#[verifier::external_body]
fn millis_of(d: &Duration) -> u128 {
    d.as_millis()
}

/// The search engine: the process definition, the tree grown so far
/// (the root holds the process's initial state), the UCB1 tree policy
/// and the rollout policy. One value of this type serves one search
/// run; the tree is inspected through `best_action` after `mcts`
/// returns.
pub struct MCTS<M, S, A, P> {
    pub mdp: M,
    pub tree: Tree<S, A>,
    pub bandit: UCB1,
    pub policy: P,
}

impl<M, S, A, P> MCTS<M, S, A, P> where M: MDP<S, A>, A: Action, P: RolloutPolicy<M, S, A> {
    /// The invariant every search operation keeps: the arena is
    /// well-formed and every child arose from a legal action.
    pub open spec fn wf(&self) -> bool {
        &&& tree_wf(self.tree@)
        &&& tree_legal(self.tree@, self.mdp)
    }

    /// A fresh engine whose root carries the process's initial state
    /// and empty statistics.
    pub fn new(mdp: M, policy: P) -> (s: Self)
        ensures
            s.wf(),
            s.tree@.len() == 1,
            s.tree@[0].state == mdp.spec_initial_state(),
            s.tree@[0].children@.len() == 0,
            s.tree@[0].visits == 0,
            s.tree@[0].score == 0,
            s.tree@[0].reward == 0,
            s.tree@[0].action is None,
            s.tree@[0].parent is None,
            s.mdp == mdp,
            s.policy == policy,
    {
        let state = mdp.get_initial_state();
        let tree = Tree::new(state);
        proof {
            assert(tree_legal(tree@, mdp));
        }
        MCTS { mdp, tree, bandit: UCB1, policy }
    }

    /// The heuristic value estimate used when a simulation is cut off
    /// at the deadline before reaching a terminal state.
    pub(crate) fn heuristic_eval(&self, _state: &S) -> (r: i64)
        ensures
            r == 0,
    {
        0
    }

    /// Play out from the state of `node` until a terminal state or the
    /// deadline, letting the rollout policy choose and the process
    /// execute each step, and return the plain (undiscounted) sum of
    /// the step rewards, saturating at the i64 bounds: the return is
    /// always the saturated reward sum of some play-out legal under
    /// the process's spec functions. A play-out cut off at the
    /// deadline gets the heuristic estimate (0) added. Tree statistics
    /// are untouched, and a play-out from a terminal state returns 0.
    pub(crate) fn simulate(&self, node: usize, start: &Instant, timeout: u128) -> (ret: i64)
        requires
            self.wf(),
            node < self.tree@.len(),
        ensures
            self.mdp.spec_is_terminal(self.tree@[node as int].state) ==> ret == 0,
            exists|tr: Seq<(S, A, S, i64)>|
                #[trigger] playout_ok(self.mdp, self.tree@[node as int].state, tr) && ret as int
                    == playout_sum(tr, tr.len() as int),
    {
        let ghost start_state = self.tree@[node as int].state;
        let mut state = self.mdp.clone_state(&self.tree.nodes[node].state);
        let mut cumulative: i64 = 0;
        let mut steps: u64 = 0;
        let ghost mut tr: Seq<(S, A, S, i64)> = Seq::empty();
        while steps < u64::MAX && !self.mdp.is_terminal(&state) && millis_of(
            &elapsed_since(start),
        ) < timeout
            invariant
                self.wf(),
                node < self.tree@.len(),
                start_state == self.tree@[node as int].state,
                self.mdp.spec_is_terminal(start_state) ==> cumulative == 0 && state
                    == start_state,
                playout_ok(self.mdp, start_state, tr),
                cumulative as int == playout_sum(tr, tr.len() as int),
                tr.len() > 0 ==> state == tr[tr.len() - 1].2,
                tr.len() == 0 ==> state == start_state,
            decreases u64::MAX - steps,
        {
            let actions = self.mdp.get_actions(&state);
            let action = self.policy.pick(&state, &actions);
            let stepped = self.mdp.execute(&state, &action);
            proof {
                let prev = tr;
                tr = tr.push((state, action, stepped.0, stepped.1));
                lemma_playout_sum_push(
                    prev,
                    (state, action, stepped.0, stepped.1),
                    prev.len() as int,
                );
                assert forall|j: int| 0 <= j < tr.len() implies ({
                    let step = #[trigger] tr[j];
                    &&& (if j == 0 {
                        step.0 == start_state
                    } else {
                        step.0 == tr[j - 1].2
                    })
                    &&& !self.mdp.spec_is_terminal(step.0)
                    &&& self.mdp.spec_actions(step.0).contains(step.1)
                    &&& step.3 == self.mdp.spec_reward(step.0, step.1, step.2)
                }) by {
                    if j < prev.len() {
                        assert(tr[j] == prev[j]);
                        if j > 0 {
                            assert(tr[j - 1] == prev[j - 1]);
                        }
                    } else {
                        assert(tr[j] == (state, action, stepped.0, stepped.1));
                        if j > 0 {
                            assert(tr[j - 1] == prev[j - 1]);
                        }
                    }
                }
                assert(playout_ok(self.mdp, start_state, tr));
            }
            cumulative = sat_add_i64(cumulative, stepped.1);
            state = stepped.0;
            steps = steps + 1;
        }
        if !self.mdp.is_terminal(&state) {
            cumulative = sat_add_i64(cumulative, self.heuristic_eval(&state));
        }
        proof {
            assert(playout_ok(self.mdp, start_state, tr) && cumulative as int == playout_sum(
                tr,
                tr.len() as int,
            ));
        }
        cumulative
    }

    /// Run the search until `timeout` milliseconds of wall-clock time
    /// have passed: select a node from the root, and if it is not
    /// terminal, expand it by one child, simulate from that child and
    /// backpropagate the return from it. An iteration that selected a
    /// terminal node does no further work. A zero deadline leaves the
    /// tree untouched. (The loop also stops after u64::MAX iterations,
    /// which makes its termination provable; no clock reaches that.)
    pub fn mcts(&mut self, timeout: u128)
        requires
            old(self).wf(),
        ensures
            final(self).wf(),
            final(self).mdp == old(self).mdp,
            final(self).policy == old(self).policy,
            tree_extends(old(self).tree@, final(self).tree@),
            timeout == 0 ==> final(self).tree@ == old(self).tree@,
            old(self).tree@.len() == old(self).tree@[0].visits + 1 ==> final(self).tree@.len()
                == final(self).tree@[0].visits + 1,
    {
        proof {
            crate::node::lemma_tree_extends_refl(self.tree@);
        }
        let start = now_instant();
        let mut iters: u64 = 0;
        while iters < u64::MAX && millis_of(&elapsed_since(&start)) < timeout
            invariant
                self.wf(),
                self.mdp == old(self).mdp,
                self.policy == old(self).policy,
                tree_extends(old(self).tree@, self.tree@),
                timeout > 0 || self.tree@ == old(self).tree@,
                old(self).tree@.len() == old(self).tree@[0].visits + 1 ==> self.tree@.len()
                    == self.tree@[0].visits + 1,
            decreases u64::MAX - iters,
        {
            let ghost t_iter = self.tree@;
            let selected = self.tree.select(0, &self.mdp, &self.bandit);
            if !self.mdp.is_terminal(&self.tree.nodes[selected].state) {
                let child = self.tree.expand(selected, &self.mdp, &self.policy);
                let ret = self.simulate(child, &start, timeout);
                let ghost tb = self.tree@;
                self.tree.backpropagate(child, ret);
                proof {
                    assert forall|j: int| 0 <= j < tb.len() implies same_but_stats(
                        tb[j],
                        #[trigger] self.tree@[j],
                    ) by {
                        if !on_path(tb, j, child as int) {
                            assert(self.tree@[j] == tb[j]);
                        }
                    }
                    lemma_legal_stats_preserved(tb, self.tree@, self.mdp);
                    crate::node::lemma_tree_extends_trans(t_iter, tb, self.tree@);
                    // One productive iteration adds exactly one node and
                    // exactly one root visit, so the fresh-run balance
                    // node count == root visits + 1 is kept.
                    if t_iter.len() == t_iter[0].visits + 1 {
                        assert(tb.len() == t_iter.len() + 1);
                        if selected == 0 {
                            assert(crate::node::same_but_children(t_iter[0], tb[0]));
                        } else {
                            assert(tb[0] == t_iter[0]);
                        }
                        assert(tb[0].visits == t_iter[0].visits);
                        crate::node::lemma_root_on_path(tb, child as int);
                        assert(crate::node::backprop_updated(tb, self.tree@, 0, ret as int));
                        broadcast use vstd::std_specs::vec::axiom_spec_len;

                        assert(vstd::std_specs::vec::spec_vec_len(&self.tree.nodes)
                            <= usize::MAX);
                        assert(self.tree@.len() <= usize::MAX);
                        assert(tb.len() <= usize::MAX);
                        assert(tb[0].visits < u64::MAX);
                        assert(self.tree@[0].visits == tb[0].visits + 1);
                        assert(self.tree@.len() == self.tree@[0].visits + 1);
                    }
                }
            } else {
                proof {
                    crate::node::lemma_tree_extends_refl(self.tree@);
                }
            }
            proof {
                crate::node::lemma_tree_extends_trans(old(self).tree@, t_iter, self.tree@);
            }
            iters = iters + 1;
        }
    }

    /// The action of the root child at position `k`.
    fn root_child_action(&self, k: usize) -> (a: A)
        requires
            self.wf(),
            k < self.tree@[0].children@.len(),
        ensures
            a == root_child(self.tree@, k as int).action->Some_0,
    {
        proof {
            assert(node_wf(self.tree@, 0));
        }
        let c = self.tree.nodes[0].children[k];
        proof {
            assert(node_wf(self.tree@, c as int));
        }
        match self.tree.nodes[c].action {
            Some(x) => x,
            None => unreached(),
        }
    }

    /// The root child with the most visits; equally visited children
    /// lose to the latest of them.
    fn best_most_visited(&self) -> (a: A)
        requires
            self.wf(),
            self.tree@[0].children@.len() > 0,
        ensures
            a == root_child(
                self.tree@,
                most_visited_upto(self.tree@, self.tree@[0].children@.len() - 1),
            ).action->Some_0,
    {
        let ghost t = self.tree@;
        let n = self.tree.nodes[0].children.len();
        let mut best: usize = 0;
        let mut k: usize = 1;
        while k < n
            invariant
                self.wf(),
                t == self.tree@,
                n == t[0].children@.len(),
                1 <= k <= n,
                best < k,
                best as int == most_visited_upto(t, k - 1),
            decreases n - k,
        {
            proof {
                assert(node_wf(t, 0));
            }
            let c = self.tree.nodes[0].children[k];
            let b = self.tree.nodes[0].children[best];
            if self.tree.nodes[c].visits >= self.tree.nodes[b].visits {
                best = k;
            }
            k = k + 1;
        }
        self.root_child_action(best)
    }

    /// The root child with the highest mean reward, compared exactly;
    /// ties go to the first such child.
    fn best_highest_q(&self) -> (a: A)
        requires
            self.wf(),
            self.tree@[0].children@.len() > 0,
        ensures
            a == root_child(
                self.tree@,
                highest_q_upto(self.tree@, self.tree@[0].children@.len() - 1),
            ).action->Some_0,
    {
        let ghost t = self.tree@;
        let n = self.tree.nodes[0].children.len();
        let mut best: usize = 0;
        let mut k: usize = 1;
        while k < n
            invariant
                self.wf(),
                t == self.tree@,
                n == t[0].children@.len(),
                1 <= k <= n,
                best < k,
                best as int == highest_q_upto(t, k - 1),
            decreases n - k,
        {
            proof {
                assert(node_wf(t, 0));
            }
            let c = self.tree.nodes[0].children[k];
            let b = self.tree.nodes[0].children[best];
            if q_less(
                self.tree.nodes[b].score,
                self.tree.nodes[b].visits,
                self.tree.nodes[c].score,
                self.tree.nodes[c].visits,
            ) {
                best = k;
            }
            k = k + 1;
        }
        self.root_child_action(best)
    }

    /// One root child drawn from the softmax distribution over the
    /// children's mean rewards: the maximum is subtracted for
    /// stability, the weights are exponential in the remaining
    /// distance, the normalizer is floored above zero, and the first
    /// child whose cumulative share meets the uniform draw wins (the
    /// first child if none does).
    fn best_probabilistic(&self) -> (a: A)
        requires
            self.wf(),
            self.tree@[0].children@.len() > 0,
        ensures
            exists|g: int|
                0 <= g < 10000 && a == root_child(
                    self.tree@,
                    #[trigger] softmax_pick(self.tree@, g),
                ).action->Some_0,
    {
        let ghost t = self.tree@;
        let n = self.tree.nodes[0].children.len();
        let mut qs: Vec<i128> = Vec::new();
        let mut k: usize = 0;
        while k < n
            invariant
                self.wf(),
                t == self.tree@,
                n == t[0].children@.len(),
                k <= n,
                qs@.len() == k,
                forall|p: int| 0 <= p < k ==> #[trigger] qs@[p] as int == root_child_qfp(t, p),
                forall|p: int|
                    0 <= p < k ==> -0x20000000000000000000 <= #[trigger] qs@[p]
                        <= 0x20000000000000000000,
            decreases n - k,
        {
            proof {
                assert(node_wf(t, 0));
            }
            let c = self.tree.nodes[0].children[k];
            qs.push(q_value_fp(self.tree.nodes[c].score, self.tree.nodes[c].visits));
            k = k + 1;
        }
        let mut mq: i128 = qs[0];
        let mut k: usize = 1;
        while k < n
            invariant
                n == t[0].children@.len(),
                1 <= k <= n,
                qs@.len() == n,
                forall|p: int| 0 <= p < n ==> #[trigger] qs@[p] as int == root_child_qfp(t, p),
                forall|p: int|
                    0 <= p < n ==> -0x20000000000000000000 <= #[trigger] qs@[p]
                        <= 0x20000000000000000000,
                mq as int == max_qfp_upto(t, k - 1),
                -0x20000000000000000000 <= mq <= 0x20000000000000000000,
            decreases n - k,
        {
            if qs[k] > mq {
                mq = qs[k];
            }
            k = k + 1;
        }
        let mut ws: Vec<u64> = Vec::new();
        let mut sum: u128 = 0;
        let mut k: usize = 0;
        while k < n
            invariant
                n == t[0].children@.len(),
                k <= n,
                qs@.len() == n,
                forall|p: int| 0 <= p < n ==> #[trigger] qs@[p] as int == root_child_qfp(t, p),
                forall|p: int|
                    0 <= p < n ==> -0x20000000000000000000 <= #[trigger] qs@[p]
                        <= 0x20000000000000000000,
                mq as int == max_qfp_upto(t, n - 1),
                -0x20000000000000000000 <= mq <= 0x20000000000000000000,
                ws@.len() == k,
                forall|p: int| 0 <= p < k ==> #[trigger] ws@[p] as nat == soft_weight(t, p),
                sum as int == wsum_upto(t, k as int),
                sum <= 1024 * (k as u128),
            decreases n - k,
        {
            proof {
                lemma_max_qfp_ge(t, n - 1, k as int);
            }
            let d = mq - qs[k];
            let d64: u64 = if d > 8192 {
                8193
            } else {
                d as u64
            };
            let w = exp_neg_fp(d64);
            proof {
                if d > 8192 {
                    assert(exp_fp(to_nonneg(mq as int - qs@[k as int])) == 0);
                    assert(w as nat == soft_weight(t, k as int));
                } else {
                    assert(d64 as nat == to_nonneg(mq as int - qs@[k as int]));
                }
            }
            ws.push(w);
            sum = sum + w as u128;
            k = k + 1;
        }
        let total: u128 = if sum == 0 {
            1
        } else {
            sum
        };
        let g = crate::rand::genrand(0, 10000) as u128;
        let mut cum: u128 = 0;
        let mut k: usize = 0;
        while k < n
            invariant
                self.wf(),
                t == self.tree@,
                n == t[0].children@.len(),
                k <= n,
                ws@.len() == n,
                forall|p: int| 0 <= p < n ==> #[trigger] ws@[p] as nat == soft_weight(t, p),
                cum as int == wsum_upto(t, k as int),
                cum <= 1024 * (k as u128),
                total <= 1024 * (n as u128) + 1,
                total as int == soft_total(t),
                g < 10000,
                softmax_pick(t, g as int) == softmax_pick_from(t, g as int, k as int),
            decreases n - k,
        {
            proof {
                assert(g * total <= 10000 * (1024 * (n as u128) + 1)) by (nonlinear_arith)
                    requires
                        g < 10000u128,
                        total <= 1024 * (n as u128) + 1,
                        n <= 0xffffffffffffffffu128,
                ;
            }
            cum = cum + ws[k] as u128;
            proof {
                assert(soft_weight(t, k as int) <= 1024) by {
                    crate::fixed::lemma_exp_fp_le_scale(
                        to_nonneg(max_qfp_upto(t, n - 1) - root_child_qfp(t, k as int)),
                    );
                }
                assert(cum as int == wsum_upto(t, k + 1));
            }
            if 10000 * cum >= g * total {
                proof {
                    assert(softmax_pick_from(t, g as int, k as int) == k as int);
                }
                let a = self.root_child_action(k);
                proof {
                    assert(0 <= (g as int) && (g as int) < 10000 && a == root_child(
                        t,
                        softmax_pick(t, g as int),
                    ).action->Some_0);
                }
                return a;
            }
            k = k + 1;
        }
        let a = self.root_child_action(0);
        proof {
            assert(softmax_pick(t, g as int) == 0);
            assert(0 <= (g as int) && (g as int) < 10000 && a == root_child(
                t,
                softmax_pick(t, g as int),
            ).action->Some_0);
        }
        a
    }

    /// A root child whose recorded transition reward is strictly
    /// positive, drawn uniformly among them if any exist; otherwise a
    /// child tied (exactly) for the best mean reward, drawn uniformly
    /// among the ties.
    fn best_heuristic_win(&self) -> (a: A)
        requires
            self.wf(),
            self.tree@[0].children@.len() > 0,
        ensures
            (exists|k: int|
                0 <= k < self.tree@[0].children@.len() && (#[trigger] root_child(
                    self.tree@,
                    k,
                )).reward > 0) ==> exists|k: int|
                0 <= k < self.tree@[0].children@.len() && (#[trigger] root_child(
                    self.tree@,
                    k,
                )).reward > 0 && a == root_child(self.tree@, k).action->Some_0,
            !(exists|k: int|
                0 <= k < self.tree@[0].children@.len() && (#[trigger] root_child(
                    self.tree@,
                    k,
                )).reward > 0) ==> exists|k: int|
                #[trigger] is_best_q_pos(self.tree@, k) && a == root_child(
                    self.tree@,
                    k,
                ).action->Some_0,
    {
        let ghost t = self.tree@;
        let n = self.tree.nodes[0].children.len();
        let mut winners: Vec<A> = Vec::new();
        let ghost mut poss: Seq<int> = Seq::empty();
        let mut k: usize = 0;
        while k < n
            invariant
                self.wf(),
                t == self.tree@,
                n == t[0].children@.len(),
                k <= n,
                poss.len() == winners@.len(),
                forall|e: int|
                    0 <= e < poss.len() ==> 0 <= #[trigger] poss[e] < k && root_child(
                        t,
                        poss[e],
                    ).reward > 0 && winners@[e] == root_child(t, poss[e]).action->Some_0,
                (exists|p: int| 0 <= p < k && (#[trigger] root_child(t, p)).reward > 0)
                    ==> winners@.len() > 0,
            decreases n - k,
        {
            proof {
                assert(node_wf(t, 0));
            }
            let c = self.tree.nodes[0].children[k];
            let winning = self.tree.nodes[c].reward > 0;
            if winning {
                let ak = self.root_child_action(k);
                winners.push(ak);
                proof {
                    poss = poss.push(k as int);
                }
            }
            proof {
                assert(root_child(t, k as int) == t[c as int]);
                assert forall|p: int|
                    0 <= p < k + 1 && (#[trigger] root_child(t, p)).reward
                        > 0 implies winners@.len() > 0 by {
                    if p < k {
                        assert(winners@.len() > 0);
                    } else {
                        assert(winning);
                    }
                }
            }
            k = k + 1;
        }
        if winners.len() > 0 {
            let pick = crate::rand::genrand(0, winners.len());
            let a = winners[pick];
            proof {
                let p = poss[pick as int];
                assert(0 <= p < n && (root_child(t, p)).reward > 0 && a == root_child(
                    t,
                    p,
                ).action->Some_0);
            }
            return a;
        }
        // No winning child: collect the children tied for the best
        // mean reward.
        let a0 = self.root_child_action(0);
        let mut best: usize = 0;
        let mut best_list: Vec<A> = Vec::new();
        best_list.push(a0);
        let mut k: usize = 1;
        while k < n
            invariant
                self.wf(),
                t == self.tree@,
                n == t[0].children@.len(),
                1 <= k <= n,
                best < k,
                forall|m: int|
                    0 <= m < k ==> !q_lt(
                        root_child(t, best as int).score as int,
                        root_child(t, best as int).visits as nat,
                        (#[trigger] root_child(t, m)).score as int,
                        root_child(t, m).visits as nat,
                    ),
                best_list@.len() > 0,
                forall|e: int|
                    0 <= e < best_list@.len() ==> exists|p: int|
                        0 <= p < k && #[trigger] best_list@[e] == root_child(t, p).action->Some_0
                            && !q_lt(
                            (#[trigger] root_child(t, p)).score as int,
                            root_child(t, p).visits as nat,
                            root_child(t, best as int).score as int,
                            root_child(t, best as int).visits as nat,
                        ) && !q_lt(
                            root_child(t, best as int).score as int,
                            root_child(t, best as int).visits as nat,
                            root_child(t, p).score as int,
                            root_child(t, p).visits as nat,
                        ),
            decreases n - k,
        {
            proof {
                assert(node_wf(t, 0));
            }
            let c = self.tree.nodes[0].children[k];
            let b = self.tree.nodes[0].children[best];
            let bs = self.tree.nodes[b].score;
            let bv = self.tree.nodes[b].visits;
            let cs = self.tree.nodes[c].score;
            let cv = self.tree.nodes[c].visits;
            if q_less(bs, bv, cs, cv) {
                // Strictly better than the best so far: it dominates
                // every earlier child as well.
                proof {
                    assert forall|m: int| 0 <= m < k + 1 implies !q_lt(
                        root_child(t, k as int).score as int,
                        root_child(t, k as int).visits as nat,
                        (#[trigger] root_child(t, m)).score as int,
                        root_child(t, m).visits as nat,
                    ) by {
                        if m < k {
                            lemma_q_ge_trans(
                                root_child(t, k as int).score as int,
                                root_child(t, k as int).visits as nat,
                                root_child(t, best as int).score as int,
                                root_child(t, best as int).visits as nat,
                                root_child(t, m).score as int,
                                root_child(t, m).visits as nat,
                            );
                        }
                    }
                }
                let ak = self.root_child_action(k);
                let mut fresh: Vec<A> = Vec::new();
                fresh.push(ak);
                best_list = fresh;
                best = k;
            } else if !q_less(cs, cv, bs, bv) {
                // Exactly tied with the best so far.
                let ak = self.root_child_action(k);
                best_list.push(ak);
                proof {
                    assert forall|m: int| 0 <= m < k + 1 implies !q_lt(
                        root_child(t, best as int).score as int,
                        root_child(t, best as int).visits as nat,
                        (#[trigger] root_child(t, m)).score as int,
                        root_child(t, m).visits as nat,
                    ) by {
                        if m == k {
                            assert(!q_lt(
                                root_child(t, best as int).score as int,
                                root_child(t, best as int).visits as nat,
                                root_child(t, k as int).score as int,
                                root_child(t, k as int).visits as nat,
                            ));
                        }
                    }
                }
            } else {
                // Strictly worse: the running maximum covers it.
                proof {
                    assert(!q_lt(
                        root_child(t, best as int).score as int,
                        root_child(t, best as int).visits as nat,
                        root_child(t, k as int).score as int,
                        root_child(t, k as int).visits as nat,
                    ));
                }
            }
            k = k + 1;
        }
        let pick = crate::rand::genrand(0, best_list.len());
        let a = best_list[pick];
        proof {
            let p = choose|p: int|
                0 <= p < n && a == root_child(t, p).action->Some_0 && !q_lt(
                    (#[trigger] root_child(t, p)).score as int,
                    root_child(t, p).visits as nat,
                    root_child(t, best as int).score as int,
                    root_child(t, best as int).visits as nat,
                ) && !q_lt(
                    root_child(t, best as int).score as int,
                    root_child(t, best as int).visits as nat,
                    root_child(t, p).score as int,
                    root_child(t, p).visits as nat,
                );
            assert forall|m: int| 0 <= m < n implies !q_lt(
                root_child(t, p).score as int,
                root_child(t, p).visits as nat,
                (#[trigger] root_child(t, m)).score as int,
                root_child(t, m).visits as nat,
            ) by {
                lemma_q_ge_trans(
                    root_child(t, p).score as int,
                    root_child(t, p).visits as nat,
                    root_child(t, best as int).score as int,
                    root_child(t, best as int).visits as nat,
                    root_child(t, m).score as int,
                    root_child(t, m).visits as nat,
                );
            }
            assert(is_best_q_pos(t, p));
        }
        a
    }

    /// The chosen action after the search, evaluated on the root's
    /// direct children only: None exactly when the root has no
    /// children, and otherwise the child the strategy prescribes (see
    /// each helper above).
    pub fn best_action(&self, strategy: Strategy) -> (r: Option<A>)
        requires
            self.wf(),
        ensures
            r is None <==> self.tree@[0].children@.len() == 0,
            match strategy {
                Strategy::MostVisited => self.tree@[0].children@.len() > 0 ==> r == Some(
                    root_child(
                        self.tree@,
                        most_visited_upto(self.tree@, self.tree@[0].children@.len() - 1),
                    ).action->Some_0,
                ),
                Strategy::HighestQValue => self.tree@[0].children@.len() > 0 ==> r == Some(
                    root_child(
                        self.tree@,
                        highest_q_upto(self.tree@, self.tree@[0].children@.len() - 1),
                    ).action->Some_0,
                ),
                Strategy::Probabilistic => self.tree@[0].children@.len() > 0 ==> exists|g: int|
                    0 <= g < 10000 && r == Some(
                        root_child(self.tree@, #[trigger] softmax_pick(self.tree@, g)).action->Some_0,
                    ),
                Strategy::HeuristicWin => self.tree@[0].children@.len() > 0 ==> ({
                    if exists|k: int|
                        0 <= k < self.tree@[0].children@.len() && (#[trigger] root_child(
                            self.tree@,
                            k,
                        )).reward > 0 {
                        exists|k: int|
                            0 <= k < self.tree@[0].children@.len() && (#[trigger] root_child(
                                self.tree@,
                                k,
                            )).reward > 0 && r == Some(root_child(self.tree@, k).action->Some_0)
                    } else {
                        exists|k: int|
                            #[trigger] is_best_q_pos(self.tree@, k) && r == Some(
                                root_child(self.tree@, k).action->Some_0,
                            )
                    }
                }),
            },
    {
        let n = self.tree.nodes[0].children.len();
        if n == 0 {
            return None;
        }
        match strategy {
            Strategy::MostVisited => Some(self.best_most_visited()),
            Strategy::HighestQValue => Some(self.best_highest_q()),
            Strategy::Probabilistic => Some(self.best_probabilistic()),
            Strategy::HeuristicWin => Some(self.best_heuristic_win()),
        }
    }
}

} // verus!
