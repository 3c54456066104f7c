use vstd::prelude::*;
use crate::action::Action;
use crate::fixed::ucb1_fp;
use crate::node::node_wf;
use crate::node::spec_find_child;
use crate::node::tree_wf;
use crate::node::Node;
use crate::node::Tree;
use crate::rand::genrand;

verus! {

/// The UCB1 value of the child at position `k` of node `i`, scored
/// against the parent's visit count.
pub open spec fn child_ucb<S, A>(t: Seq<Node<S, A>>, i: int, k: int) -> int {
    ucb1_fp(
        t[t[i].children@[k] as int].score as int,
        t[t[i].children@[k] as int].visits as nat,
        t[i].visits as nat,
    )
}

/// Position `k` holds a child of `i` whose UCB1 value no sibling
/// exceeds.
pub open spec fn is_max_ucb_pos<S, A>(t: Seq<Node<S, A>>, i: int, k: int) -> bool {
    &&& 0 <= k < t[i].children@.len()
    &&& forall|m: int| 0 <= m < t[i].children@.len() ==> #[trigger] child_ucb(t, i, m) <= child_ucb(
        t,
        i,
        k,
    )
}

/// The position in `acts` of the first action that has no child under
/// `i` yet, scanning from `k`.
pub open spec fn first_untried_from<S, A>(
    t: Seq<Node<S, A>>,
    i: int,
    acts: Seq<A>,
    k: int,
) -> Option<int>
    decreases acts.len() - k,
{
    if 0 <= k < acts.len() {
        if spec_find_child(t, i, acts[k]) is None {
            Some(k)
        } else {
            first_untried_from(t, i, acts, k + 1)
        }
    } else {
        None
    }
}

/// The position in `acts` of the first action untried at `i`.
pub open spec fn first_untried<S, A>(t: Seq<Node<S, A>>, i: int, acts: Seq<A>) -> Option<int> {
    first_untried_from(t, i, acts, 0)
}

/// The UCB1 multi-armed bandit: given a node and the legal actions at
/// its state, it returns an untried action if one exists (the first,
/// so exploration completes before exploitation), and otherwise the
/// action of one child with maximal UCB1 value, drawn uniformly at
/// random among the ties.
#[derive(Debug, Default)]
pub struct UCB1;

impl UCB1 {
    pub(crate) fn select<S, A: Action>(
        &self,
        tree: &Tree<S, A>,
        i: usize,
        actions: &Vec<A>,
    ) -> (a: A)
        requires
            tree_wf(tree@),
            i < tree@.len(),
            actions@.len() > 0,
            forall|k: int|
                0 <= k < tree@[i as int].children@.len() ==> actions@.contains(
                    tree@[#[trigger] tree@[i as int].children@[k] as int].action->Some_0,
                ),
        ensures
            actions@.contains(a),
            match first_untried(tree@, i as int, actions@) {
                Some(m) => a == actions@[m],
                None => exists|k: int|
                    #[trigger] is_max_ucb_pos(tree@, i as int, k) && a
                        == tree@[tree@[i as int].children@[k] as int].action->Some_0,
            },
    {
        let n_actions = actions.len();
        let mut m: usize = 0;
        while m < n_actions
            invariant
                tree_wf(tree@),
                i < tree@.len(),
                n_actions == actions@.len(),
                m <= n_actions,
                first_untried(tree@, i as int, actions@) == first_untried_from(
                    tree@,
                    i as int,
                    actions@,
                    m as int,
                ),
            decreases n_actions - m,
        {
            match tree.find_child(i, &actions[m]) {
                None => {
                    return actions[m];
                },
                Some(_) => {},
            }
            m = m + 1;
        }
        proof {
            assert(first_untried(tree@, i as int, actions@) is None);
            assert(node_wf(tree@, i as int));
        }
        // Every action is tried, so at least the first action's child
        // exists and the children list is non-empty.
        let n = tree.nodes[i].children.len();
        proof {
            if n == 0 {
                assert(spec_find_child(tree@, i as int, actions@[0]) is None);
            }
        }
        let parent_visits = tree.nodes[i].visits;
        let mut best: i128 = i128::MIN;
        let mut max_actions: Vec<A> = Vec::new();
        let ghost t = tree@;
        let mut k: usize = 0;
        while k < n
            invariant
                tree_wf(t),
                t == tree@,
                i < t.len(),
                parent_visits == t[i as int].visits,
                n == t[i as int].children@.len(),
                0 < n,
                k <= n,
                k == 0 ==> best == i128::MIN,
                k > 0 ==> max_actions@.len() > 0,
                k > 0 ==> (exists|p: int| 0 <= p < k && #[trigger] child_ucb(t, i as int, p) == best),
                forall|p: int| 0 <= p < k ==> #[trigger] child_ucb(t, i as int, p) <= best,
                forall|e: int|
                    0 <= e < max_actions@.len() ==> exists|p: int|
                        0 <= p < k && #[trigger] child_ucb(t, i as int, p) == best
                            && #[trigger] max_actions@[e]
                            == t[t[i as int].children@[p] as int].action->Some_0,
            decreases n - k,
        {
            proof {
                assert(node_wf(t, i as int));
            }
            let c = tree.nodes[i].children[k];
            proof {
                assert(i < c < t.len());
                assert(node_wf(t, c as int));
            }
            let act = match tree.nodes[c].action {
                Some(x) => x,
                None => unreached(),
            };
            let v = tree.nodes[c].ucb1(parent_visits);
            proof {
                assert(t[i as int].children@[k as int] == c);
                assert(child_ucb(t, i as int, k as int) == v as int);
            }
            if v > best {
                best = v;
                let mut fresh: Vec<A> = Vec::new();
                fresh.push(act);
                max_actions = fresh;
            } else if v == best {
                max_actions.push(act);
            }
            k = k + 1;
        }
        let pick = genrand(0, max_actions.len());
        let a = max_actions[pick];
        proof {
            let e = pick as int;
            let p = choose|p: int|
                0 <= p < n && #[trigger] child_ucb(t, i as int, p) == best && max_actions@[e]
                    == t[t[i as int].children@[p] as int].action->Some_0;
            assert(is_max_ucb_pos(t, i as int, p));
            assert(node_wf(t, i as int));
            assert(actions@.contains(t[t[i as int].children@[p] as int].action->Some_0));
        }
        a
    }
}

} // verus!
