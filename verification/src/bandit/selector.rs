use vstd::prelude::*;
use crate::action::Action;
use crate::fixed::q_fp;
use crate::node::spec_find_child;
use crate::node::tree_wf;
use crate::node::Node;
use crate::node::Tree;

verus! {

/// The mean reward, at scale SCALE, of the child of `i` produced by
/// `a`: its score over its visits, 0 if it is unvisited or absent.
pub open spec fn child_q<S, A>(t: Seq<Node<S, A>>, i: int, a: A) -> int {
    match spec_find_child(t, i, a) {
        Some(c) => q_fp(t[c].score as int, t[c].visits as nat),
        None => 0,
    }
}

/// A multi-armed bandit: given a node of the tree and the legal
/// actions at its state, it scores the already-expanded children and
/// answers with one of the actions.
pub trait MultiArmedBandit<S, A: Action> {
    /// The estimated value of playing `action` at node `i`.
    fn q_function(&self, tree: &Tree<S, A>, i: usize, action: A) -> (q: i128)
        requires
            tree_wf(tree@),
            i < tree@.len(),
        ensures
            q as int == child_q(tree@, i as int, action),
    ;

    /// One of `actions`, chosen on the children's statistics.
    fn select(&self, tree: &Tree<S, A>, i: usize, actions: &Vec<A>) -> (a: A)
        requires
            tree_wf(tree@),
            i < tree@.len(),
            actions@.len() > 0,
            forall|k: int|
                0 <= k < tree@[i as int].children@.len() ==> actions@.contains(
                    tree@[#[trigger] tree@[i as int].children@[k] as int].action->Some_0,
                ),
        ensures
            actions@.contains(a),
    ;
}

} // verus!
