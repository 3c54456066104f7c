use vstd::prelude::*;
use crate::action::Action;
use crate::bandit::selector::child_q;
use crate::bandit::selector::MultiArmedBandit;
use crate::fixed::q_value_fp;
use crate::node::Tree;

verus! {

/// The UCB1 rule packaged behind the [`MultiArmedBandit`] contract:
/// untried actions first, then the action of a child with maximal
/// UCB1 value, ties broken uniformly at random.
#[derive(Debug, Default)]
pub struct UCB1;

impl UCB1 {
    pub fn new() -> Self {
        UCB1
    }
}

impl<S, A: Action> MultiArmedBandit<S, A> for UCB1 {
    fn q_function(&self, tree: &Tree<S, A>, i: usize, action: A) -> (q: i128) {
        match tree.find_child(i, &action) {
            Some(c) => q_value_fp(tree.nodes[c].score, tree.nodes[c].visits),
            None => 0,
        }
    }

    fn select(&self, tree: &Tree<S, A>, i: usize, actions: &Vec<A>) -> (a: A) {
        let rule = crate::ucb1::UCB1;
        rule.select(tree, i, actions)
    }
}

} // verus!
