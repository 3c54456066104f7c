use mct_rs::action::Action;
use mct_rs::mdp::MDP;
use mct_rs::node::Node;
use mct_rs::node::Tree;
use mct_rs::policy::RandomRollout;
use mct_rs::ucb1::UCB1;

#[derive(Debug, Clone, Copy, PartialEq, Eq)]
enum TestAction {
    A,
    B,
}

impl Action for TestAction {
    fn eq_action(&self, other: &Self) -> bool {
        self == other
    }
}

struct DummyMDP;

impl MDP<u32, TestAction> for DummyMDP {
    fn get_states(&self) -> Vec<u32> {
        vec![]
    }

    fn get_actions(&self, _state: &u32) -> Vec<TestAction> {
        vec![TestAction::A, TestAction::B]
    }

    fn get_transitions(&self, state: &u32, action: &TestAction) -> Vec<(u32, u64)> {
        let next = match action {
            TestAction::A => *state + 1,
            TestAction::B => *state + 2,
        };
        vec![(next, 1000)]
    }

    fn get_reward(&self, state: &u32, _action: &TestAction, _next_state: &u32) -> i64 {
        *state as i64
    }

    fn is_terminal(&self, state: &u32) -> bool {
        *state >= 10
    }

    fn get_discount_factor(&self) -> u64 {
        1000
    }

    fn get_initial_state(&self) -> u32 {
        0
    }

    fn get_goal_states(&self) -> Vec<u32> {
        vec![]
    }

    fn clone_state(&self, state: &u32) -> u32 {
        *state
    }

    fn execute(&self, state: &u32, action: &TestAction) -> (u32, i64, bool) {
        let next_state = match action {
            TestAction::A => *state + 1,
            TestAction::B => *state + 2,
        };
        let reward = *state as i64;
        (next_state, reward, self.is_terminal(&next_state))
    }
}

#[test]
fn test_node_new() {
    let node: Node<u32, TestAction> = Node::new(0, None, 0, None);
    assert_eq!(node.visits, 0);
    assert_eq!(node.state, 0);
    assert!(node.action.is_none());
    assert!(node.children.is_empty());
}

#[test]
fn test_get_outcome_child_adds_new_child() {
    let mut root: Tree<u32, TestAction> = Tree::new(0);
    let mdp = DummyMDP;

    let child = root.get_or_create_child(0, &mdp, &TestAction::A);

    assert_eq!(root.nodes[0].children.len(), 1);
    assert_eq!(root.nodes[child].state, 1); // 0 + 1
    assert_eq!(root.nodes[child].parent, Some(0));
}

#[test]
fn test_get_outcome_child_returns_existing_child() {
    let mut root: Tree<u32, TestAction> = Tree::new(0);
    let mdp = DummyMDP;

    let child1 = root.get_or_create_child(0, &mdp, &TestAction::A);
    let child2 = root.get_or_create_child(0, &mdp, &TestAction::A);

    assert_eq!(child1, child2);
    assert_eq!(root.nodes[0].children.len(), 1);
}

#[test]
fn test_is_full_expanded() {
    let mut node: Tree<u32, TestAction> = Tree::new(0);
    let mdp = DummyMDP;

    assert!(!node.is_fully_expanded(0, &mdp));

    // Expand all actions
    node.get_or_create_child(0, &mdp, &TestAction::A);
    node.get_or_create_child(0, &mdp, &TestAction::B);

    assert!(node.is_fully_expanded(0, &mdp));
}

#[test]
fn test_expand_adds_one_child() {
    let mut node: Tree<u32, TestAction> = Tree::new(0);
    let mdp = DummyMDP;
    let policy = RandomRollout::new();

    assert_eq!(node.nodes[0].children.len(), 0);

    let child = node.expand(0, &mdp, &policy);

    assert_eq!(node.nodes[0].children.len(), 1);
    let first = node.nodes[0].children[0];
    assert_eq!(node.nodes[first].score, node.nodes[child].score);
    assert_eq!(node.nodes[first].state, node.nodes[child].state);
    assert_eq!(node.nodes[first].visits, node.nodes[child].visits);
}

#[test]
fn test_expand_terminal_returns_self() {
    let mut node: Tree<u32, TestAction> = Tree::new(10); // terminal state
    let mdp = DummyMDP;
    let policy = RandomRollout::new();

    let before = node.nodes[0].children.len();
    let child = node.expand(0, &mdp, &policy);

    assert_eq!(child, 0);
    assert_eq!(node.nodes[0].children.len(), before);
}

#[test]
fn test_back_propagate_increments_visits() {
    let mut root: Tree<u32, TestAction> = Tree::new(0);
    let mdp = DummyMDP;
    let child = root.get_or_create_child(0, &mdp, &TestAction::A);

    root.backpropagate(child, 10);

    assert_eq!(root.nodes[child].visits, 1);
    assert_eq!(root.nodes[0].visits, 1);
}

#[test]
fn test_select_returns_terminal_node() {
    let root: Tree<u32, TestAction> = Tree::new(10); // terminal state
    let mdp = DummyMDP;
    let bandit = UCB1::default();

    let selected = root.select(0, &mdp, &bandit);
    assert_eq!(selected, 0);
}

#[test]
fn test_select_traverses_fully_expanded() {
    let mut root: Tree<u32, TestAction> = Tree::new(0);
    let mdp = DummyMDP;
    let bandit = UCB1::default();

    // Expand both actions
    root.get_or_create_child(0, &mdp, &TestAction::A);
    root.get_or_create_child(0, &mdp, &TestAction::B);

    let selected = root.select(0, &mdp, &bandit);

    // Both children score equally, so the tie is broken at random:
    // the walk must land on one of the two children.
    assert_eq!(root.nodes[0].children.len(), 2);
    assert!(root.nodes[0].children.contains(&selected));
    assert_eq!(root.nodes[selected].parent, Some(0));
    assert!(root.nodes[selected].state == 1 || root.nodes[selected].state == 2);
}

#[test]
fn unvisited_node_has_zero_mean_reward() {
    let node: Node<u32, TestAction> = Node::new(3, None, 7, None);
    assert_eq!(node.visits, 0);
    assert_eq!(node.q_value(), 0);
}

#[test]
fn mean_reward_is_score_over_visits_at_scale() {
    let mut tree: Tree<u32, TestAction> = Tree::new(0);
    let mdp = DummyMDP;
    let child = tree.get_or_create_child(0, &mdp, &TestAction::A);
    // The child's stored reward is 0 (from state 0), so its score is
    // exactly the one observed return.
    tree.backpropagate(child, 10);
    assert_eq!(tree.nodes[child].visits, 1);
    assert_eq!(tree.nodes[child].score, 10);
    // 10 * 1024 / 1
    assert_eq!(tree.nodes[child].q_value(), 10240);
}

#[test]
fn backpropagate_updates_exactly_the_ancestors() {
    let mut tree: Tree<u32, TestAction> = Tree::new(0);
    let mdp = DummyMDP;
    // root -> c1 (action A, state 1, reward 0); c1 -> c2 (action A,
    // state 2, reward 1); plus a sibling of c1 left untouched.
    let c1 = tree.get_or_create_child(0, &mdp, &TestAction::A);
    let c2 = tree.get_or_create_child(c1, &mdp, &TestAction::A);
    let sibling = tree.get_or_create_child(0, &mdp, &TestAction::B);

    tree.backpropagate(c2, 5);

    // Every ancestor of c2 (c2, c1, the root) gained exactly one
    // visit and the raw return 5, unchanged. c2's score also carries
    // its own transition reward 1, which entered once at creation;
    // c1 and the root were created with reward 0.
    assert_eq!(tree.nodes[c2].visits, 1);
    assert_eq!(tree.nodes[c1].visits, 1);
    assert_eq!(tree.nodes[0].visits, 1);
    assert_eq!(tree.nodes[c2].score, 6);
    assert_eq!(tree.nodes[c1].score, 5);
    assert_eq!(tree.nodes[0].score, 5);
    // The non-ancestor is untouched.
    assert_eq!(tree.nodes[sibling].visits, 0);
    assert_eq!(tree.nodes[sibling].score, 0);
}

#[test]
fn ucb1_value_combines_mean_and_exploration_bonus() {
    let mut node: Node<u32, TestAction> = Node::new(1, Some(TestAction::A), 0, Some(0));
    node.visits = 1;
    node.score = 10;
    // Parent visited once: floor(log2(1)) = 0, so no bonus.
    assert_eq!(node.ucb1(1), 10240);
    // Parent visited twice: bonus = isqrt(2 * 1024 * 710 / 1) = 1205.
    assert_eq!(node.ucb1(2), 10240 + 1205);
}

#[test]
fn select_on_partially_expanded_root_stops_at_root() {
    let mut root: Tree<u32, TestAction> = Tree::new(0);
    let mdp = DummyMDP;
    let bandit = UCB1::default();
    root.get_or_create_child(0, &mdp, &TestAction::A);
    // One action is still untried, so the root itself is selected.
    let selected = root.select(0, &mdp, &bandit);
    assert_eq!(selected, 0);
}
