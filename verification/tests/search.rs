use mct_rs::action::Action;
use mct_rs::bandit::selector::MultiArmedBandit;
use mct_rs::mcts::MCTS;
use mct_rs::mdp::MDP;
use mct_rs::node::Tree;
use mct_rs::policy::RandomRollout;
use mct_rs::strategy::Strategy;
use mct_rs::ucb1::UCB1;

#[derive(Debug, Clone, Copy, PartialEq, Eq)]
enum Arm {
    A,
    B,
}

impl Action for Arm {
    fn eq_action(&self, other: &Self) -> bool {
        self == other
    }
}

/// A one-step decision: from the start state both arms lead to a
/// terminal state, arm A paying `reward_a` and arm B paying
/// `reward_b`. States: 0 = start, 1 = after A, 2 = after B.
struct TwoArm {
    reward_a: i64,
    reward_b: i64,
}

impl MDP<u8, Arm> for TwoArm {
    fn get_states(&self) -> Vec<u8> {
        vec![0, 1, 2]
    }

    fn get_actions(&self, _state: &u8) -> Vec<Arm> {
        vec![Arm::A, Arm::B]
    }

    fn get_transitions(&self, _state: &u8, action: &Arm) -> Vec<(u8, u64)> {
        match action {
            Arm::A => vec![(1, 1000)],
            Arm::B => vec![(2, 1000)],
        }
    }

    fn get_reward(&self, _state: &u8, action: &Arm, _next_state: &u8) -> i64 {
        match action {
            Arm::A => self.reward_a,
            Arm::B => self.reward_b,
        }
    }

    fn is_terminal(&self, state: &u8) -> bool {
        *state != 0
    }

    fn get_discount_factor(&self) -> u64 {
        1000
    }

    fn get_initial_state(&self) -> u8 {
        0
    }

    fn get_goal_states(&self) -> Vec<u8> {
        vec![1]
    }

    fn clone_state(&self, state: &u8) -> u8 {
        *state
    }
}

#[test]
fn zero_deadline_leaves_root_childless_and_every_strategy_absent() {
    let mdp = TwoArm { reward_a: 1, reward_b: 0 };
    let mut m = MCTS::new(mdp, RandomRollout::new());
    m.mcts(0);
    assert_eq!(m.tree.nodes.len(), 1);
    assert!(m.tree.nodes[0].children.is_empty());
    assert_eq!(m.best_action(Strategy::MostVisited), None);
    assert_eq!(m.best_action(Strategy::HighestQValue), None);
    assert_eq!(m.best_action(Strategy::Probabilistic), None);
    assert_eq!(m.best_action(Strategy::HeuristicWin), None);
}

#[test]
fn one_step_decision_highest_q_prefers_the_rewarding_arm() {
    // Reward 1 for A, 0 for B: with both arms explored, the mean
    // reward of A's child is strictly higher, so HighestQValue must
    // return A, run after run.
    for _ in 0..20 {
        let mdp = TwoArm { reward_a: 1, reward_b: 0 };
        let mut m = MCTS::new(mdp, RandomRollout::new());
        m.mcts(50);
        assert_eq!(m.tree.nodes[0].children.len(), 2);
        assert_eq!(m.best_action(Strategy::HighestQValue), Some(Arm::A));
    }
}

#[test]
fn heuristic_win_picks_the_winning_child() {
    // Only A's child records a strictly positive transition reward.
    let mdp = TwoArm { reward_a: 1, reward_b: 0 };
    let mut m = MCTS::new(mdp, RandomRollout::new());
    m.mcts(50);
    assert_eq!(m.tree.nodes[0].children.len(), 2);
    for _ in 0..50 {
        assert_eq!(m.best_action(Strategy::HeuristicWin), Some(Arm::A));
    }
}

#[test]
fn probabilistic_tie_splits_draws_evenly() {
    // Both children end up with mean reward 10, so their softmax
    // weights are equal and the empirical frequency over many draws
    // must be close to 50/50.
    let mdp = TwoArm { reward_a: 10, reward_b: 10 };
    let mut m = MCTS::new(mdp, RandomRollout::new());
    m.mcts(50);
    assert_eq!(m.tree.nodes[0].children.len(), 2);
    let c0 = m.tree.nodes[0].children[0];
    let c1 = m.tree.nodes[0].children[1];
    assert_eq!(m.tree.nodes[c0].q_value(), 10 * 1024);
    assert_eq!(m.tree.nodes[c1].q_value(), 10 * 1024);
    let mut picks_a: u32 = 0;
    for _ in 0..2000 {
        match m.best_action(Strategy::Probabilistic) {
            Some(Arm::A) => picks_a += 1,
            Some(Arm::B) => {},
            None => panic!("children exist"),
        }
    }
    assert!(picks_a > 800 && picks_a < 1200, "picks_a = {}", picks_a);
}

#[test]
fn probabilistic_collapses_on_a_clear_winner() {
    // Mean rewards 10 and 0: the loser's distance from the maximum is
    // far past the softmax cutoff, so its weight underflows to zero
    // and A is drawn every time.
    let mdp = TwoArm { reward_a: 10, reward_b: 0 };
    let mut m = MCTS::new(mdp, RandomRollout::new());
    m.mcts(50);
    assert_eq!(m.tree.nodes[0].children.len(), 2);
    for _ in 0..100 {
        assert_eq!(m.best_action(Strategy::Probabilistic), Some(Arm::A));
    }
}

#[test]
fn most_visited_returns_the_more_visited_child() {
    let mdp = TwoArm { reward_a: 0, reward_b: 0 };
    let mut tree: Tree<u8, Arm> = Tree::new(0);
    let ca = tree.get_or_create_child(0, &mdp, &Arm::A);
    let cb = tree.get_or_create_child(0, &mdp, &Arm::B);
    tree.backpropagate(ca, 0);
    tree.backpropagate(ca, 0);
    tree.backpropagate(ca, 0);
    tree.backpropagate(cb, 0);
    let m = MCTS { mdp, tree, bandit: UCB1::default(), policy: RandomRollout::new() };
    assert_eq!(m.best_action(Strategy::MostVisited), Some(Arm::A));
}

#[test]
fn most_visited_tie_goes_to_the_later_child() {
    let mdp = TwoArm { reward_a: 0, reward_b: 0 };
    let mut tree: Tree<u8, Arm> = Tree::new(0);
    let ca = tree.get_or_create_child(0, &mdp, &Arm::A);
    let cb = tree.get_or_create_child(0, &mdp, &Arm::B);
    tree.backpropagate(ca, 0);
    tree.backpropagate(cb, 0);
    let m = MCTS { mdp, tree, bandit: UCB1::default(), policy: RandomRollout::new() };
    assert_eq!(m.best_action(Strategy::MostVisited), Some(Arm::B));
}

#[test]
fn highest_q_tie_goes_to_the_first_child() {
    let mdp = TwoArm { reward_a: 0, reward_b: 0 };
    let mut tree: Tree<u8, Arm> = Tree::new(0);
    let ca = tree.get_or_create_child(0, &mdp, &Arm::A);
    let cb = tree.get_or_create_child(0, &mdp, &Arm::B);
    tree.backpropagate(ca, 7);
    tree.backpropagate(cb, 7);
    let m = MCTS { mdp, tree, bandit: UCB1::default(), policy: RandomRollout::new() };
    assert_eq!(m.best_action(Strategy::HighestQValue), Some(Arm::A));
}

#[test]
fn bandit_q_function_reads_the_child_statistics() {
    let mdp = TwoArm { reward_a: 0, reward_b: 0 };
    let mut tree: Tree<u8, Arm> = Tree::new(0);
    let ca = tree.get_or_create_child(0, &mdp, &Arm::A);
    tree.backpropagate(ca, 10);
    let bandit = mct_rs::bandit::ucb1::UCB1::new();
    assert_eq!(bandit.q_function(&tree, 0, Arm::A), 10 * 1024);
    assert_eq!(bandit.q_function(&tree, 0, Arm::B), 0);
}

#[test]
fn bandit_select_returns_an_untried_action_first() {
    let mdp = TwoArm { reward_a: 0, reward_b: 0 };
    let mut tree: Tree<u8, Arm> = Tree::new(0);
    let ca = tree.get_or_create_child(0, &mdp, &Arm::A);
    tree.backpropagate(ca, 100);
    let bandit = mct_rs::bandit::ucb1::UCB1::new();
    let actions = vec![Arm::A, Arm::B];
    // B has no child yet, so it is returned before any scoring.
    assert_eq!(bandit.select(&tree, 0, &actions), Arm::B);
}
