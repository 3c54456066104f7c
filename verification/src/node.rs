use vstd::prelude::*;
use crate::action::Action;
use crate::fixed::q_fp;
use crate::fixed::q_value_fp;
use crate::fixed::sat_add_i64;
use crate::fixed::sat_i64;
use crate::fixed::sat_inc;
use crate::fixed::sat_inc_u64;
use crate::fixed::ucb1_bonus;
use crate::fixed::ucb1_fp;
use crate::mdp::MDP;
use crate::policy::RolloutPolicy;
use crate::ucb1::UCB1;

verus! {

/// One explored (state, action-that-produced-it) pair, together with
/// its statistics. Nodes live in the arena of a [`Tree`] and refer to
/// each other by index: the index doubles as the node's identifier,
/// assigned in creation order. The parent back-reference is a plain
/// index, so no ownership cycle arises; the root is the node at index
/// 0 and has neither parent nor action.
pub struct Node<S, A> {
    /// The state this node stands for.
    pub state: S,
    /// The action that led here from the parent; None only for the root.
    pub action: Option<A>,
    /// The immediate transition reward received when the node was created.
    pub reward: i64,
    /// How often the node lay on a backpropagation path.
    pub visits: u64,
    /// Cumulative score: the node's immediate transition reward plus
    /// the sum of the returns observed through this node.
    pub score: i64,
    /// The index of the parent node; None only for the root.
    pub parent: Option<usize>,
    /// The indices of the children, in expansion order.
    pub children: Vec<usize>,
}

impl<S, A> Node<S, A> {
    /// A fresh node. Its score starts at the immediate transition
    /// reward: that reward enters the statistics exactly once, here,
    /// while backpropagation later adds each observed return
    /// unchanged.
    pub fn new(state: S, action: Option<A>, reward: i64, parent: Option<usize>) -> (n: Node<S, A>)
        ensures
            n.state == state,
            n.action == action,
            n.reward == reward,
            n.parent == parent,
            n.visits == 0,
            n.score == reward,
            n.children@.len() == 0,
    {
        Node {
            state,
            action,
            reward,
            visits: 0,
            score: reward,
            parent,
            children: Vec::new(),
        }
    }

    /// The mean reward of this node at scale SCALE: score / visits,
    /// and 0 while the node is unvisited.
    pub fn q_value(&self) -> (q: i128)
        ensures
            q as int == q_fp(self.score as int, self.visits as nat),
            self.visits == 0 ==> q == 0,
    {
        q_value_fp(self.score, self.visits)
    }

    /// The UCB1 value of this node at scale SCALE: mean reward plus
    /// the exploration bonus sqrt(2 ln(max(parent visits, 1)) /
    /// max(own visits, 1)).
    pub fn ucb1(&self, parent_visits: u64) -> (v: i128)
        ensures
            v as int == ucb1_fp(self.score as int, self.visits as nat, parent_visits as nat),
    {
        let q = q_value_fp(self.score, self.visits);
        let b = ucb1_bonus(parent_visits, self.visits);
        q + b as i128
    }
}

/// The search tree: an arena of nodes addressed by stable indices.
/// Index 0 is the root.
pub struct Tree<S, A> {
    pub nodes: Vec<Node<S, A>>,
}

impl<S, A> View for Tree<S, A> {
    type V = Seq<Node<S, A>>;

    open spec fn view(&self) -> Seq<Node<S, A>> {
        self.nodes@
    }
}

/// Everything node-local that well-formedness asks of node `i`: the
/// root and only the root lacks parent and action, parent and child
/// links agree and point backwards resp. forwards in creation order,
/// and no two children were produced by the same action.
pub open spec fn node_wf<S, A>(t: Seq<Node<S, A>>, i: int) -> bool {
    &&& (i == 0 <==> t[i].parent is None)
    &&& (i == 0 <==> t[i].action is None)
    &&& (t[i].parent is Some ==> 0 <= t[i].parent->Some_0 < i && t[t[i].parent->Some_0 as int].children@.contains(
        i as usize,
    ))
    &&& (forall|k: int|
        0 <= k < t[i].children@.len() ==> i < #[trigger] t[i].children@[k] < t.len()
            && t[t[i].children@[k] as int].parent == Some(i as usize))
    &&& (forall|k1: int, k2: int|
        0 <= k1 < k2 < t[i].children@.len() ==> t[#[trigger] t[i].children@[k1] as int].action != t[#[trigger] t[i].children@[k2] as int].action)
}

/// Well-formedness of the whole arena.
pub open spec fn tree_wf<S, A>(t: Seq<Node<S, A>>) -> bool {
    &&& t.len() >= 1
    &&& forall|i: int| 0 <= i < t.len() ==> #[trigger] node_wf(t, i)
}

/// Every child of every node was produced by an action that is legal
/// at its parent's state under `mdp`.
pub open spec fn tree_legal<S, A, M: MDP<S, A>>(t: Seq<Node<S, A>>, mdp: M) -> bool {
    forall|i: int, k: int|
        0 <= i < t.len() && 0 <= k < t[i].children@.len() ==> mdp.spec_actions(t[i].state).contains(
            t[#[trigger] t[i].children@[k] as int].action->Some_0,
        )
}

/// Two nodes that agree on everything but their children list.
pub open spec fn same_but_children<S, A>(n1: Node<S, A>, n2: Node<S, A>) -> bool {
    &&& n1.state == n2.state
    &&& n1.action == n2.action
    &&& n1.reward == n2.reward
    &&& n1.visits == n2.visits
    &&& n1.score == n2.score
    &&& n1.parent == n2.parent
}

/// Two nodes that agree on everything but their statistics.
pub open spec fn same_but_stats<S, A>(n1: Node<S, A>, n2: Node<S, A>) -> bool {
    &&& n1.state == n2.state
    &&& n1.action == n2.action
    &&& n1.reward == n2.reward
    &&& n1.parent == n2.parent
    &&& n1.children == n2.children
}

/// The first child of `i` (scanning from position `k`) whose action is
/// `a`, as an index into the arena.
pub open spec fn spec_find_child_from<S, A>(t: Seq<Node<S, A>>, i: int, a: A, k: int) -> Option<
    int,
>
    decreases t[i].children@.len() - k,
{
    if 0 <= i < t.len() && 0 <= k < t[i].children@.len() {
        if t[t[i].children@[k] as int].action == Some(a) {
            Some(t[i].children@[k] as int)
        } else {
            spec_find_child_from(t, i, a, k + 1)
        }
    } else {
        None
    }
}

/// The child of `i` produced by action `a`, if one exists.
pub open spec fn spec_find_child<S, A>(t: Seq<Node<S, A>>, i: int, a: A) -> Option<int> {
    spec_find_child_from(t, i, a, 0)
}

pub proof fn lemma_find_child_from_none<S, A>(t: Seq<Node<S, A>>, i: int, a: A, k: int)
    requires
        0 <= i < t.len(),
        0 <= k,
        spec_find_child_from(t, i, a, k) is None,
    ensures
        forall|m: int|
            k <= m < t[i].children@.len() ==> t[#[trigger] t[i].children@[m] as int].action != Some(
                a,
            ),
    decreases t[i].children@.len() - k,
{
    if k < t[i].children@.len() {
        lemma_find_child_from_none(t, i, a, k + 1);
    }
}

pub proof fn lemma_find_child_from_some<S, A>(t: Seq<Node<S, A>>, i: int, a: A, k: int)
    requires
        0 <= i < t.len(),
        0 <= k,
        spec_find_child_from(t, i, a, k) is Some,
    ensures
        exists|m: int|
            k <= m < t[i].children@.len() && t[i].children@[m] as int == spec_find_child_from(
                t,
                i,
                a,
                k,
            )->Some_0 && t[#[trigger] t[i].children@[m] as int].action == Some(a),
    decreases t[i].children@.len() - k,
{
    if t[t[i].children@[k] as int].action == Some(a) {
        assert(k <= k < t[i].children@.len() && t[i].children@[k] as int == spec_find_child_from(
            t,
            i,
            a,
            k,
        )->Some_0 && t[t[i].children@[k] as int].action == Some(a));
    } else {
        lemma_find_child_from_some(t, i, a, k + 1);
        let m = choose|m: int|
            k + 1 <= m < t[i].children@.len() && t[i].children@[m] as int
                == spec_find_child_from(t, i, a, k + 1)->Some_0 && t[#[trigger] t[i].children@[m] as int].action
                == Some(a);
        assert(k <= m < t[i].children@.len() && t[i].children@[m] as int == spec_find_child_from(
            t,
            i,
            a,
            k,
        )->Some_0 && t[t[i].children@[m] as int].action == Some(a));
    }
}

/// A node `j` lies on the upward path that starts at `i`: it is `i`
/// itself or one of its ancestors.
pub open spec fn on_path<S, A>(t: Seq<Node<S, A>>, j: int, i: int) -> bool
    decreases i,
{
    if i == j {
        true
    } else if 0 <= i < t.len() && t[i].parent is Some && 0 <= t[i].parent->Some_0 < i {
        on_path(t, j, t[i].parent->Some_0 as int)
    } else {
        false
    }
}

/// Node `j`, after a backpropagation with raw return `r`, relative to
/// its old value: one more visit and the return added, unchanged, to
/// the score, both saturating at their type bounds.
pub open spec fn backprop_updated<S, A>(
    t0: Seq<Node<S, A>>,
    t1: Seq<Node<S, A>>,
    j: int,
    r: int,
) -> bool {
    &&& same_but_stats(t0[j], t1[j])
    &&& t1[j].visits as int == sat_inc(t0[j].visits as int)
    &&& t1[j].score as int == sat_i64(t0[j].score + r)
}

/// A step on the upward path stays on it: the parent of a node that
/// lies on the path from `i` lies on it too.
pub proof fn lemma_on_path_le<S, A>(t: Seq<Node<S, A>>, j: int, i: int)
    requires
        on_path(t, j, i),
    ensures
        j <= i,
    decreases i,
{
    if i != j {
        lemma_on_path_le(t, j, t[i].parent->Some_0 as int);
    }
}

pub proof fn lemma_on_path_parent<S, A>(t: Seq<Node<S, A>>, i: int, cur: int)
    requires
        tree_wf(t),
        0 <= i < t.len(),
        0 <= cur < t.len(),
        on_path(t, cur, i),
        t[cur].parent is Some,
    ensures
        on_path(t, t[cur].parent->Some_0 as int, i),
    decreases i,
{
    assert(node_wf(t, cur));
    let p = t[cur].parent->Some_0 as int;
    assert(0 <= p < cur);
    if i == cur {
        assert(on_path(t, p, p));
        assert(on_path(t, p, i));
    } else {
        assert(node_wf(t, i));
        assert(t[i].parent is Some && 0 <= t[i].parent->Some_0 < i);
        lemma_on_path_parent(t, t[i].parent->Some_0 as int, cur);
        assert(on_path(t, p, t[i].parent->Some_0 as int));
        assert(on_path(t, p, i));
    }
}

/// The tree after a created-and-attached child `c` under `i` with
/// action `a`, relative to the tree before.
pub open spec fn child_created<S, A, M: MDP<S, A>>(
    t0: Seq<Node<S, A>>,
    t1: Seq<Node<S, A>>,
    i: int,
    a: A,
    c: int,
    mdp: M,
) -> bool {
    &&& t1.len() == t0.len() + 1
    &&& c == t0.len()
    &&& (forall|j: int| 0 <= j < t0.len() && j != i ==> t1[j] == t0[j])
    &&& same_but_children(t0[i], t1[i])
    &&& t1[i].children@ == t0[i].children@.push(c as usize)
    &&& t1[c].parent == Some(i as usize)
    &&& t1[c].action == Some(a)
    &&& t1[c].visits == 0
    &&& t1[c].score == t1[c].reward
    &&& t1[c].children@.len() == 0
    &&& t1[c].reward == mdp.spec_reward(t0[i].state, a, t1[c].state)
}

proof fn lemma_find_child_after_push<S, A>(
    t0: Seq<Node<S, A>>,
    t1: Seq<Node<S, A>>,
    i: int,
    a: A,
    c: usize,
    k: int,
)
    requires
        tree_wf(t0),
        0 <= i < t0.len(),
        t1.len() == t0.len() + 1,
        c as int == t0.len(),
        forall|j: int| 0 <= j < t0.len() && j != i ==> t1[j] == t0[j],
        t1[i].children@ == t0[i].children@.push(c),
        t1[c as int].action == Some(a),
        0 <= k <= t0[i].children@.len(),
        spec_find_child_from(t0, i, a, k) is None,
    ensures
        spec_find_child_from(t1, i, a, k) == Some(c as int),
    decreases t0[i].children@.len() - k,
{
    assert(node_wf(t0, i));
    if k < t0[i].children@.len() {
        let ch = t0[i].children@[k] as int;
        assert(i < ch < t0.len());
        assert(t1[ch] == t0[ch]);
        assert(t1[i].children@[k] == t0[i].children@[k]);
        lemma_find_child_after_push(t0, t1, i, a, c, k + 1);
    } else {
        assert(t1[i].children@[k] == c);
        assert(t1[t1[i].children@[k] as int].action == Some(a));
    }
}

/// Structure equality preserves well-formedness: statistics play no
/// part in it.
pub proof fn lemma_wf_stats_preserved<S, A>(t0: Seq<Node<S, A>>, t1: Seq<Node<S, A>>)
    requires
        tree_wf(t0),
        t1.len() == t0.len(),
        forall|j: int| 0 <= j < t0.len() ==> same_but_stats(t0[j], #[trigger] t1[j]),
    ensures
        tree_wf(t1),
{
    assert forall|i: int| 0 <= i < t1.len() implies #[trigger] node_wf(t1, i) by {
        assert(node_wf(t0, i));
        assert(t1[i].children@ == t0[i].children@);
        if t1[i].parent is Some {
            let p = t1[i].parent->Some_0;
            assert(t0[p as int].children@.contains(i as usize));
        }
        assert forall|k: int| 0 <= k < t1[i].children@.len() implies i
            < #[trigger] t1[i].children@[k] < t1.len() && t1[t1[i].children@[k] as int].parent
            == Some(i as usize) by {
            assert(t0[i].children@[k] == t1[i].children@[k]);
        }
    }
}

/// Structure equality preserves child legality as well.
pub proof fn lemma_legal_stats_preserved<S, A, M: MDP<S, A>>(
    t0: Seq<Node<S, A>>,
    t1: Seq<Node<S, A>>,
    mdp: M,
)
    requires
        tree_wf(t0),
        tree_legal(t0, mdp),
        t1.len() == t0.len(),
        forall|j: int| 0 <= j < t0.len() ==> same_but_stats(t0[j], #[trigger] t1[j]),
    ensures
        tree_legal(t1, mdp),
{
    assert forall|i: int, k: int|
        0 <= i < t1.len() && 0 <= k < t1[i].children@.len() implies mdp.spec_actions(
        t1[i].state,
    ).contains(t1[#[trigger] t1[i].children@[k] as int].action->Some_0) by {
        assert(node_wf(t0, i));
        assert(t0[i].children@ == t1[i].children@);
        let c = t0[i].children@[k] as int;
        assert(0 <= c < t0.len());
        assert(same_but_stats(t0[c], t1[c]));
        assert(mdp.spec_actions(t0[i].state).contains(
            t0[t0[i].children@[k] as int].action->Some_0,
        ));
    }
}

/// The tree after a search operation extends the tree before it: no
/// node is removed, no node's identity (state, action, reward, parent)
/// changes, and no child is ever taken away — children lists only grow
/// at their end. Every mutating tree operation ensures this.
pub open spec fn tree_extends<S, A>(t0: Seq<Node<S, A>>, t1: Seq<Node<S, A>>) -> bool {
    &&& t0.len() <= t1.len()
    &&& forall|j: int|
        0 <= j < t0.len() ==> (#[trigger] t1[j]).state == t0[j].state && t1[j].action
            == t0[j].action && t1[j].reward == t0[j].reward && t1[j].parent == t0[j].parent
            && t0[j].children@.is_prefix_of(t1[j].children@)
}

pub proof fn lemma_tree_extends_refl<S, A>(t: Seq<Node<S, A>>)
    ensures
        tree_extends(t, t),
{
    assert forall|j: int| 0 <= j < t.len() implies (#[trigger] t[j]).state == t[j].state && t[j].children@.is_prefix_of(
        t[j].children@,
    ) by {
        assert(t[j].children@ =~= t[j].children@.subrange(0, t[j].children@.len() as int));
    }
}

pub proof fn lemma_tree_extends_trans<S, A>(
    t0: Seq<Node<S, A>>,
    t1: Seq<Node<S, A>>,
    t2: Seq<Node<S, A>>,
)
    requires
        tree_extends(t0, t1),
        tree_extends(t1, t2),
    ensures
        tree_extends(t0, t2),
{
    assert forall|j: int|
        0 <= j < t0.len() implies (#[trigger] t2[j]).state == t0[j].state && t2[j].action
        == t0[j].action && t2[j].reward == t0[j].reward && t2[j].parent == t0[j].parent
        && t0[j].children@.is_prefix_of(t2[j].children@) by {
        assert(t1[j].state == t0[j].state && t1[j].children@.is_prefix_of(t2[j].children@));
        let c0 = t0[j].children@;
        let c1 = t1[j].children@;
        let c2 = t2[j].children@;
        assert(c0 =~= c2.subrange(0, c0.len() as int)) by {
            assert(c0 =~= c1.subrange(0, c0.len() as int));
            assert(c1 =~= c2.subrange(0, c1.len() as int));
            assert forall|m: int| 0 <= m < c0.len() implies c0[m] == c2[m] by {
                assert(c0[m] == c1[m]);
            }
        }
    }
}

pub proof fn lemma_seq_push_prefix<T>(s: Seq<T>, x: T)
    ensures
        s.is_prefix_of(s.push(x)),
{
    assert(s =~= s.push(x).subrange(0, s.len() as int));
}

/// Structure equality is a (trivial) extension: changing only the
/// statistics extends the tree.
pub proof fn lemma_extends_from_stats<S, A>(t0: Seq<Node<S, A>>, t1: Seq<Node<S, A>>)
    requires
        t1.len() == t0.len(),
        forall|j: int| 0 <= j < t0.len() ==> same_but_stats(t0[j], #[trigger] t1[j]),
    ensures
        tree_extends(t0, t1),
{
    assert forall|j: int|
        0 <= j < t0.len() implies (#[trigger] t1[j]).state == t0[j].state && t1[j].action
        == t0[j].action && t1[j].reward == t0[j].reward && t1[j].parent == t0[j].parent
        && t0[j].children@.is_prefix_of(t1[j].children@) by {
        assert(same_but_stats(t0[j], t1[j]));
        assert(t0[j].children@ =~= t1[j].children@.subrange(0, t0[j].children@.len() as int));
    }
}

/// Children are deduplicated by action: a well-formed tree holds at
/// most one child of `i` per action, so two child positions that share
/// an action are one position. Together with the contract of
/// `get_or_create_child` — which, whenever the tree already maps the
/// action to a child, returns exactly that child and leaves the tree
/// untouched, and which always leaves the tree mapping the action to
/// the returned child — this is what makes child creation idempotent:
/// a second call with the same action on the same node returns the
/// same child.
pub proof fn lemma_child_unique_per_action<S, A>(t: Seq<Node<S, A>>, i: int, k1: int, k2: int)
    requires
        tree_wf(t),
        0 <= i < t.len(),
        0 <= k1 < t[i].children@.len(),
        0 <= k2 < t[i].children@.len(),
        t[t[i].children@[k1] as int].action == t[t[i].children@[k2] as int].action,
    ensures
        k1 == k2,
        t[i].children@[k1] == t[i].children@[k2],
{
    assert(node_wf(t, i));
}

/// The count form of deduplication: in a tree that maps action `a` to
/// a child of `i` — which is how `get_or_create_child` always leaves
/// it — exactly one child position of `i` carries that action: one
/// does, and any two that do are the same position.
pub proof fn lemma_exactly_one_child_for_action<S, A>(t: Seq<Node<S, A>>, i: int, a: A)
    requires
        tree_wf(t),
        0 <= i < t.len(),
        spec_find_child(t, i, a) is Some,
    ensures
        exists|k: int|
            0 <= k < t[i].children@.len() && t[#[trigger] t[i].children@[k] as int].action
                == Some(a),
        forall|k1: int, k2: int|
            0 <= k1 < t[i].children@.len() && 0 <= k2 < t[i].children@.len()
                && t[#[trigger] t[i].children@[k1] as int].action == Some(a)
                && t[#[trigger] t[i].children@[k2] as int].action == Some(a) ==> k1 == k2,
{
    lemma_find_child_from_some(t, i, a, 0);
    assert(node_wf(t, i));
    assert forall|k1: int, k2: int|
        0 <= k1 < t[i].children@.len() && 0 <= k2 < t[i].children@.len()
            && t[#[trigger] t[i].children@[k1] as int].action == Some(a)
            && t[#[trigger] t[i].children@[k2] as int].action == Some(a) implies k1 == k2 by {
        if k1 < k2 {
            assert(t[t[i].children@[k1] as int].action != t[t[i].children@[k2] as int].action);
        }
        if k2 < k1 {
            assert(t[t[i].children@[k2] as int].action != t[t[i].children@[k1] as int].action);
        }
    }
}

/// In a well-formed tree every upward path ends at the root: the root
/// lies on the path of every node.
pub proof fn lemma_root_on_path<S, A>(t: Seq<Node<S, A>>, i: int)
    requires
        tree_wf(t),
        0 <= i < t.len(),
    ensures
        on_path(t, 0, i),
    decreases i,
{
    if i != 0 {
        assert(node_wf(t, i));
        lemma_root_on_path(t, t[i].parent->Some_0 as int);
    }
}

/// Backpropagation started at node `i` increments the visit count of
/// exactly the nodes on the path from `i` to the root — `i` itself and
/// the root included — by one, adds the raw return unchanged to their
/// scores, and leaves every other node unchanged. The hypotheses are
/// what `backpropagate` ensures of the tree before and after the
/// call; the two bounds only set aside a counter already at the top
/// of its range or a score sum outside i64, where the arithmetic
/// saturates.
pub proof fn lemma_backpropagate_visits<S, A>(
    t0: Seq<Node<S, A>>,
    t1: Seq<Node<S, A>>,
    i: int,
    r: int,
    j: int,
)
    requires
        tree_wf(t0),
        0 <= i < t0.len(),
        0 <= j < t0.len(),
        t1.len() == t0.len(),
        forall|m: int|
            0 <= m < t0.len() && on_path(t0, m, i) ==> backprop_updated(t0, t1, m, r),
        forall|m: int| 0 <= m < t0.len() && !on_path(t0, m, i) ==> t1[m] == t0[m],
        t0[j].visits < u64::MAX,
    ensures
        on_path(t0, j, i) ==> t1[j].visits == t0[j].visits + 1,
        on_path(t0, j, i) && i64::MIN <= t0[j].score + r <= i64::MAX ==> t1[j].score == t0[j].score
            + r,
        !on_path(t0, j, i) ==> t1[j] == t0[j],
        on_path(t0, i, i),
        on_path(t0, 0, i),
{
    lemma_root_on_path(t0, i);
}

/// The actions that produced `i`'s children, in child order.
pub open spec fn child_actions<S, A>(t: Seq<Node<S, A>>, i: int) -> Seq<A> {
    t[i].children@.map(|k: int, c: usize| t[c as int].action->Some_0)
}

/// Counting children against the legal actions: children are
/// deduplicated by action and every child action is legal, so a node
/// never has more children than legal actions; when the counts agree
/// every legal action has its child, and while they do not, some legal
/// action is still untried.
pub proof fn lemma_child_action_cardinality<S, A, M: MDP<S, A>>(
    t: Seq<Node<S, A>>,
    i: int,
    mdp: M,
)
    requires
        tree_wf(t),
        tree_legal(t, mdp),
        0 <= i < t.len(),
        mdp.spec_actions(t[i].state).no_duplicates(),
    ensures
        t[i].children@.len() <= mdp.spec_actions(t[i].state).len(),
        t[i].children@.len() == mdp.spec_actions(t[i].state).len() ==> forall|a: A|
            mdp.spec_actions(t[i].state).contains(a) ==> #[trigger] spec_find_child(
                t,
                i,
                a,
            ) is Some,
        t[i].children@.len() < mdp.spec_actions(t[i].state).len() ==> exists|a: A|
            mdp.spec_actions(t[i].state).contains(a) && #[trigger] spec_find_child(
                t,
                i,
                a,
            ) is None,
{
    broadcast use vstd::seq_lib::seq_to_set_is_finite;

    let ca = child_actions(t, i);
    let acts = mdp.spec_actions(t[i].state);
    assert(node_wf(t, i));
    assert(ca.len() == t[i].children@.len());
    assert forall|k: int| 0 <= k < ca.len() implies #[trigger] ca[k] == t[t[i].children@[k] as int].action->Some_0
        && t[t[i].children@[k] as int].action == Some(ca[k]) by {
        let c = t[i].children@[k] as int;
        assert(i < c < t.len());
        assert(node_wf(t, c));
        assert(t[c].action is Some);
    }
    assert(ca.no_duplicates()) by {
        assert forall|k1: int, k2: int|
            0 <= k1 < ca.len() && 0 <= k2 < ca.len() && k1 != k2 implies ca[k1] != ca[k2] by {
            if k1 < k2 {
                assert(t[t[i].children@[k1] as int].action != t[t[i].children@[k2] as int].action);
            } else {
                assert(t[t[i].children@[k2] as int].action != t[t[i].children@[k1] as int].action);
            }
        }
    }
    assert(ca.to_set().subset_of(acts.to_set())) by {
        assert forall|a: A| ca.to_set().contains(a) implies acts.to_set().contains(a) by {
            assert(ca.contains(a));
            let k = choose|k: int| 0 <= k < ca.len() && ca[k] == a;
            assert(acts.contains(t[t[i].children@[k] as int].action->Some_0));
        }
    }
    ca.unique_seq_to_set();
    acts.unique_seq_to_set();
    vstd::set_lib::lemma_len_subset(ca.to_set(), acts.to_set());
    if ca.len() == acts.len() {
        vstd::set_lib::lemma_subset_equality(ca.to_set(), acts.to_set());
        assert forall|a: A| acts.contains(a) implies #[trigger] spec_find_child(
            t,
            i,
            a,
        ) is Some by {
            assert(acts.to_set().contains(a));
            assert(ca.to_set().contains(a));
            assert(ca.contains(a));
            let k = choose|k: int| 0 <= k < ca.len() && ca[k] == a;
            assert(t[t[i].children@[k] as int].action == Some(a));
            if spec_find_child(t, i, a) is None {
                lemma_find_child_from_none(t, i, a, 0);
                assert(false);
            }
        }
    }
    if ca.len() < acts.len() {
        if forall|a: A| acts.to_set().contains(a) ==> #[trigger] ca.to_set().contains(a) {
            assert(acts.to_set().subset_of(ca.to_set()));
            vstd::set_lib::lemma_len_subset(acts.to_set(), ca.to_set());
            assert(false);
        }
        let a = choose|a: A|
            acts.to_set().contains(a) && !(#[trigger] ca.to_set().contains(a));
        assert(acts.contains(a));
        if spec_find_child(t, i, a) is Some {
            lemma_find_child_from_some(t, i, a, 0);
            let m = choose|m: int|
                0 <= m < t[i].children@.len() && t[i].children@[m] as int == spec_find_child(
                    t,
                    i,
                    a,
                )->Some_0 && t[#[trigger] t[i].children@[m] as int].action == Some(a);
            assert(ca[m] == a);
            assert(ca.contains(a));
            assert(false);
        }
        assert(acts.contains(a) && spec_find_child(t, i, a) is None);
    }
}

impl<S, A: Action> Tree<S, A> {
    /// A fresh tree holding only a root for `root_state`.
    pub fn new(root_state: S) -> (t: Tree<S, A>)
        ensures
            t@.len() == 1,
            t@[0].state == root_state,
            t@[0].action is None,
            t@[0].parent is None,
            t@[0].reward == 0,
            t@[0].visits == 0,
            t@[0].score == 0,
            t@[0].children@.len() == 0,
            tree_wf(t@),
    {
        let root = Node::new(root_state, None, 0, None);
        let mut nodes = Vec::new();
        nodes.push(root);
        Tree { nodes }
    }

    /// The child of `i` produced by `action`, if it exists.
    pub fn find_child(&self, i: usize, action: &A) -> (r: Option<usize>)
        requires
            tree_wf(self@),
            i < self@.len(),
        ensures
            match r {
                Some(c) => spec_find_child(self@, i as int, *action) == Some(c as int) && c
                    < self@.len(),
                None => spec_find_child(self@, i as int, *action) is None,
            },
    {
        let n = self.nodes[i].children.len();
        let mut k: usize = 0;
        while k < n
            invariant
                tree_wf(self@),
                i < self@.len(),
                n == self@[i as int].children@.len(),
                k <= n,
                spec_find_child_from(self@, i as int, *action, 0) == spec_find_child_from(
                    self@,
                    i as int,
                    *action,
                    k as int,
                ),
            decreases n - k,
        {
            proof {
                assert(node_wf(self@, i as int));
            }
            let c = self.nodes[i].children[k];
            let hit = match self.nodes[c].action {
                Some(ca) => ca.eq_action(action),
                None => false,
            };
            if hit {
                return Some(c);
            }
            k = k + 1;
        }
        None
    }

    /// The child of `i` for `action`: the existing one, untouched, if
    /// the action was tried before (children are deduplicated by
    /// action, and nothing is resampled); otherwise one new node,
    /// carrying one outcome sampled through the process, is created,
    /// attached and returned.
    pub fn get_or_create_child<M: MDP<S, A>>(&mut self, i: usize, mdp: &M, action: &A) -> (c:
        usize)
        requires
            tree_wf(old(self)@),
            tree_legal(old(self)@, *mdp),
            i < old(self)@.len(),
            mdp.spec_actions(old(self)@[i as int].state).contains(*action),
        ensures
            tree_wf(final(self)@),
            tree_legal(final(self)@, *mdp),
            tree_extends(old(self)@, final(self)@),
            c < final(self)@.len(),
            final(self)@[c as int].action == Some(*action),
            spec_find_child(final(self)@, i as int, *action) == Some(c as int),
            match spec_find_child(old(self)@, i as int, *action) {
                Some(j) => final(self)@ == old(self)@ && c as int == j,
                None => child_created(
                    old(self)@,
                    final(self)@,
                    i as int,
                    *action,
                    c as int,
                    *mdp,
                ),
            },
    {
        let found = self.find_child(i, action);
        match found {
            Some(c) => {
                proof {
                    lemma_find_child_from_some(self@, i as int, *action, 0);
                    lemma_tree_extends_refl(self@);
                }
                c
            },
            None => {
                let ghost t0 = self@;
                let out = mdp.execute(&self.nodes[i].state, action);
                let c = self.nodes.len();
                let child = Node::new(out.0, Some(*action), out.1, Some(i));
                self.nodes.push(child);
                self.nodes[i].children.push(c);
                proof {
                    let t1 = self@;
                    let a = *action;
                    assert(t1[i as int].children@ == t0[i as int].children@.push(c));
                    assert(child_created(t0, t1, i as int, a, c as int, *mdp));
                    lemma_find_child_from_none(t0, i as int, a, 0);
                    assert forall|x: int| 0 <= x < t0.len() implies (#[trigger] t1[x]).parent
                        == t0[x].parent && t1[x].action == t0[x].action && t1[x].state
                        == t0[x].state by {
                        if x != i {
                            assert(t1[x] == t0[x]);
                        }
                    }
                    assert forall|ii: int| 0 <= ii < t1.len() implies #[trigger] node_wf(
                        t1,
                        ii,
                    ) by {
                        if ii < t0.len() {
                            assert(node_wf(t0, ii));
                            if ii != i {
                                assert(t1[ii] == t0[ii]);
                            }
                            if t1[ii].parent is Some {
                                let p = t1[ii].parent->Some_0 as int;
                                assert(t0[p].children@.contains(ii as usize));
                                let m = choose|m: int|
                                    0 <= m < t0[p].children@.len() && t0[p].children@[m]
                                        == ii as usize;
                                if p == i {
                                    assert(t1[p].children@[m] == ii as usize);
                                } else {
                                    assert(t1[p] == t0[p]);
                                    assert(t1[p].children@[m] == ii as usize);
                                }
                                assert(t1[p].children@.contains(ii as usize));
                            }
                            assert forall|k: int| 0 <= k < t1[ii].children@.len() implies ii
                                < #[trigger] t1[ii].children@[k] < t1.len()
                                && t1[t1[ii].children@[k] as int].parent == Some(
                                ii as usize,
                            ) by {
                                if ii == i && k == t0[i as int].children@.len() {
                                    assert(t1[ii].children@[k] == c);
                                } else {
                                    assert(t1[ii].children@[k] == t0[ii].children@[k]);
                                    let cc = t0[ii].children@[k] as int;
                                    assert(ii < cc < t0.len());
                                    assert(t1[cc].parent == t0[cc].parent);
                                }
                            }
                            assert forall|k1: int, k2: int|
                                0 <= k1 < k2 < t1[ii].children@.len() implies t1[#[trigger] t1[ii].children@[k1] as int].action
                                != t1[#[trigger] t1[ii].children@[k2] as int].action by {
                                assert(t1[ii].children@[k1] == t0[ii].children@[k1]);
                                let c1 = t0[ii].children@[k1] as int;
                                assert(ii < c1 < t0.len());
                                assert(t1[c1].action == t0[c1].action);
                                if ii == i && k2 == t0[i as int].children@.len() {
                                    assert(t0[c1].action != Some(a));
                                    assert(t1[ii].children@[k2] == c);
                                } else {
                                    assert(t1[ii].children@[k2] == t0[ii].children@[k2]);
                                    let c2 = t0[ii].children@[k2] as int;
                                    assert(ii < c2 < t0.len());
                                    assert(t1[c2].action == t0[c2].action);
                                }
                            }
                        } else {
                            assert(ii == c as int);
                            assert(t1[ii].children@.len() == 0);
                            assert(t1[ii].parent == Some(i as usize));
                            assert(t1[i as int].children@[t0[i as int].children@.len() as int]
                                == c);
                            assert(t1[i as int].children@.contains(c));
                        }
                    }
                    assert forall|ii: int, k: int|
                        0 <= ii < t1.len() && 0 <= k < t1[ii].children@.len() implies mdp.spec_actions(
                        t1[ii].state,
                    ).contains(t1[#[trigger] t1[ii].children@[k] as int].action->Some_0) by {
                        if ii < t0.len() {
                            assert(node_wf(t0, ii));
                            if ii != i {
                                assert(t1[ii] == t0[ii]);
                            }
                            assert(t1[ii].state == t0[ii].state);
                            if ii == i && k == t0[i as int].children@.len() {
                                assert(t1[ii].children@[k] == c);
                                assert(t1[c as int].action->Some_0 == a);
                            } else {
                                assert(t1[ii].children@[k] == t0[ii].children@[k]);
                                let cc = t0[ii].children@[k] as int;
                                assert(ii < cc < t0.len());
                                assert(t1[cc].action == t0[cc].action);
                                assert(mdp.spec_actions(t0[ii].state).contains(
                                    t0[cc].action->Some_0,
                                ));
                            }
                        } else {
                            assert(t1[ii].children@.len() == 0);
                        }
                    }
                    lemma_find_child_after_push(t0, t1, i as int, a, c, 0);
                    assert forall|j: int|
                        0 <= j < t0.len() implies (#[trigger] t1[j]).state == t0[j].state
                        && t1[j].action == t0[j].action && t1[j].reward == t0[j].reward
                        && t1[j].parent == t0[j].parent && t0[j].children@.is_prefix_of(
                        t1[j].children@,
                    ) by {
                        if j == i {
                            lemma_seq_push_prefix(t0[j].children@, c);
                        } else {
                            assert(t1[j] == t0[j]);
                            assert(t0[j].children@ =~= t1[j].children@.subrange(
                                0,
                                t0[j].children@.len() as int,
                            ));
                        }
                    }
                    assert(tree_extends(t0, t1));
                }
                c
            },
        }
    }

    /// Record one observed return at node `i` and walk it up the
    /// parent links: every node on the path to the root gets one more
    /// visit and the raw return added, unchanged, to its score (both
    /// saturating at their type bounds). No other node changes, and no
    /// node's structure changes. A node's own immediate transition
    /// reward plays no part here: it entered the node's score once,
    /// when the node was created.
    pub fn backpropagate(&mut self, i: usize, reward: i64)
        requires
            tree_wf(old(self)@),
            i < old(self)@.len(),
        ensures
            tree_wf(final(self)@),
            tree_extends(old(self)@, final(self)@),
            final(self)@.len() == old(self)@.len(),
            forall|j: int|
                0 <= j < old(self)@.len() && on_path(old(self)@, j, i as int)
                    ==> backprop_updated(old(self)@, final(self)@, j, reward as int),
            forall|j: int|
                0 <= j < old(self)@.len() && !on_path(old(self)@, j, i as int)
                    ==> final(self)@[j] == old(self)@[j],
    {
        let ghost t0 = self@;
        let mut cur = i;
        loop
            invariant_except_break
                tree_wf(t0),
                i < t0.len(),
                cur < t0.len(),
                self@.len() == t0.len(),
                on_path(t0, cur as int, i as int),
                forall|j: int|
                    0 <= j < t0.len() && on_path(t0, j, i as int) && !on_path(
                        t0,
                        j,
                        cur as int,
                    ) ==> backprop_updated(t0, self@, j, reward as int),
                forall|j: int|
                    0 <= j < t0.len() && !(on_path(t0, j, i as int) && !on_path(
                        t0,
                        j,
                        cur as int,
                    )) ==> self@[j] == t0[j],
            ensures
                self@.len() == t0.len(),
                forall|j: int|
                    0 <= j < t0.len() && on_path(t0, j, i as int) ==> backprop_updated(
                        t0,
                        self@,
                        j,
                        reward as int,
                    ),
                forall|j: int|
                    0 <= j < t0.len() && !on_path(t0, j, i as int) ==> self@[j] == t0[j],
            decreases cur,
        {
            proof {
                assert(node_wf(t0, cur as int));
                assert(self@[cur as int] == t0[cur as int]);
            }
            let nv = sat_inc_u64(self.nodes[cur].visits);
            let ns = sat_add_i64(self.nodes[cur].score, reward);
            self.nodes[cur].visits = nv;
            self.nodes[cur].score = ns;
            proof {
                assert(backprop_updated(t0, self@, cur as int, reward as int));
            }
            let parent = self.nodes[cur].parent;
            match parent {
                Some(p) => {
                    proof {
                        assert(t0[cur as int].parent == Some(p));
                        assert(0 <= p < cur);
                        lemma_on_path_parent(t0, i as int, cur as int);
                        assert forall|j: int|
                            0 <= j < t0.len() && on_path(t0, j, i as int) && !on_path(
                                t0,
                                j,
                                p as int,
                            ) implies backprop_updated(
                            t0,
                            self@,
                            j,
                            reward as int,
                        ) by {
                            if j != cur as int {
                                assert(!on_path(t0, j, cur as int));
                            }
                        }
                        assert forall|j: int|
                            0 <= j < t0.len() && !(on_path(t0, j, i as int) && !on_path(
                                t0,
                                j,
                                p as int,
                            )) implies self@[j] == t0[j] by {
                            if on_path(t0, j, p as int) {
                                lemma_on_path_le(t0, j, p as int);
                                assert(on_path(t0, j, cur as int));
                            }
                        }
                    }
                    cur = p;
                },
                None => {
                    proof {
                        assert forall|j: int|
                            0 <= j < t0.len() && on_path(t0, j, i as int) implies backprop_updated(
                            t0,
                            self@,
                            j,
                            reward as int,
                        ) by {
                            if on_path(t0, j, cur as int) {
                                assert(j == cur as int);
                            }
                        }
                        assert forall|j: int|
                            0 <= j < t0.len() && !on_path(t0, j, i as int) implies self@[j]
                            == t0[j] by {
                            assert(!(on_path(t0, j, i as int) && !on_path(
                                t0,
                                j,
                                cur as int,
                            )));
                        }
                    }
                    break ;
                },
            }
        }
        proof {
            assert forall|j: int| 0 <= j < t0.len() implies same_but_stats(
                t0[j],
                #[trigger] self@[j],
            ) by {
                if on_path(t0, j, i as int) {
                    assert(backprop_updated(t0, self@, j, reward as int));
                }
            }
            lemma_wf_stats_preserved(t0, self@);
            lemma_extends_from_stats(t0, self@);
        }
    }

    /// Descend from node `i` to a node worth working on: the walk
    /// stops at the first node that is terminal or not fully expanded,
    /// and descends through the bandit's choice otherwise. Since a
    /// fully expanded node has a child for every legal action, the
    /// walk only follows existing children and the tree is never
    /// touched: in particular, selecting from a terminal node returns
    /// that node and creates nothing.
    pub fn select<M: MDP<S, A>>(&self, i: usize, mdp: &M, bandit: &UCB1) -> (r: usize)
        requires
            tree_wf(self@),
            tree_legal(self@, *mdp),
            i < self@.len(),
        ensures
            r < self@.len(),
            on_path(self@, i as int, r as int),
            mdp.spec_is_terminal(self@[r as int].state) || self@[r as int].children@.len()
                != mdp.spec_actions(self@[r as int].state).len(),
            mdp.spec_is_terminal(self@[i as int].state) ==> r == i,
    {
        let mut cur = i;
        loop
            invariant
                tree_wf(self@),
                tree_legal(self@, *mdp),
                i < self@.len(),
                cur < self@.len(),
                on_path(self@, i as int, cur as int),
                mdp.spec_is_terminal(self@[i as int].state) ==> cur == i,
            decreases self@.len() - cur,
        {
            if mdp.is_terminal(&self.nodes[cur].state) {
                return cur;
            }
            let actions = mdp.get_actions(&self.nodes[cur].state);
            if self.nodes[cur].children.len() != actions.len() {
                return cur;
            }
            proof {
                assert forall|p: int, q: int|
                    0 <= p < actions@.len() && 0 <= q < actions@.len() && p != q implies actions@[p]
                    != actions@[q] by {
                    if p < q {
                        assert(actions@[p] != actions@[q]);
                    } else {
                        assert(actions@[q] != actions@[p]);
                    }
                }
                lemma_child_action_cardinality(self@, cur as int, *mdp);
                assert(node_wf(self@, cur as int));
                assert forall|k: int| 0 <= k < self@[cur as int].children@.len() implies actions@.contains(
                    self@[#[trigger] self@[cur as int].children@[k] as int].action->Some_0,
                ) by {
                    assert(mdp.spec_actions(self@[cur as int].state).contains(
                        self@[self@[cur as int].children@[k] as int].action->Some_0,
                    ));
                }
            }
            let a = bandit.select(self, cur, &actions);
            let found = self.find_child(cur, &a);
            let c = match found {
                Some(c) => c,
                None => {
                    proof {
                        assert(spec_find_child(self@, cur as int, a) is Some);
                    }
                    unreached()
                },
            };
            proof {
                lemma_find_child_from_some(self@, cur as int, a, 0);
                let m = choose|m: int|
                    0 <= m < self@[cur as int].children@.len()
                        && self@[cur as int].children@[m] as int == spec_find_child(
                        self@,
                        cur as int,
                        a,
                    )->Some_0 && self@[#[trigger] self@[cur as int].children@[m] as int].action
                        == Some(a);
                assert(node_wf(self@, cur as int));
                assert(cur < c < self@.len());
                assert(self@[c as int].parent == Some(cur));
                lemma_on_path_le(self@, i as int, cur as int);
                assert(on_path(self@, i as int, c as int));
            }
            cur = c;
        }
    }

    /// Give node `i` one new child, unless its state is terminal, in
    /// which case `i` itself is returned and nothing changes. The new
    /// child's action is chosen by the rollout policy among the legal
    /// actions that have no child yet; the caller guarantees there is
    /// one by only expanding nodes that are not fully expanded.
    pub fn expand<M: MDP<S, A>, P: RolloutPolicy<M, S, A>>(
        &mut self,
        i: usize,
        mdp: &M,
        policy: &P,
    ) -> (c: usize)
        requires
            tree_wf(old(self)@),
            tree_legal(old(self)@, *mdp),
            i < old(self)@.len(),
            !mdp.spec_is_terminal(old(self)@[i as int].state) ==> old(
                self,
            )@[i as int].children@.len() != mdp.spec_actions(old(self)@[i as int].state).len(),
        ensures
            tree_wf(final(self)@),
            tree_legal(final(self)@, *mdp),
            tree_extends(old(self)@, final(self)@),
            c < final(self)@.len(),
            mdp.spec_is_terminal(old(self)@[i as int].state) ==> c == i && final(self)@ == old(
                self,
            )@,
            !mdp.spec_is_terminal(old(self)@[i as int].state) ==> ({
                let a = final(self)@[c as int].action->Some_0;
                &&& mdp.spec_actions(old(self)@[i as int].state).contains(a)
                &&& spec_find_child(old(self)@, i as int, a) is None
                &&& child_created(old(self)@, final(self)@, i as int, a, c as int, *mdp)
            }),
    {
        if mdp.is_terminal(&self.nodes[i].state) {
            proof {
                lemma_tree_extends_refl(self@);
            }
            return i;
        }
        let actions = mdp.get_actions(&self.nodes[i].state);
        proof {
            assert forall|p: int, q: int|
                0 <= p < actions@.len() && 0 <= q < actions@.len() && p != q implies actions@[p]
                != actions@[q] by {
                if p < q {
                    assert(actions@[p] != actions@[q]);
                } else {
                    assert(actions@[q] != actions@[p]);
                }
            }
            lemma_child_action_cardinality(self@, i as int, *mdp);
        }
        let n_actions = actions.len();
        let mut untried: Vec<A> = Vec::new();
        let mut k: usize = 0;
        while k < n_actions
            invariant
                tree_wf(self@),
                self@ == old(self)@,
                i < self@.len(),
                n_actions == actions@.len(),
                k <= n_actions,
                forall|e: int|
                    0 <= e < untried@.len() ==> mdp.spec_actions(self@[i as int].state).contains(
                        #[trigger] untried@[e],
                    ) && spec_find_child(self@, i as int, untried@[e]) is None,
                forall|m: int|
                    0 <= m < k && spec_find_child(self@, i as int, #[trigger] actions@[m]) is None
                        ==> untried@.contains(actions@[m]),
                actions@ == mdp.spec_actions(self@[i as int].state),
            decreases n_actions - k,
        {
            let tried = self.find_child(i, &actions[k]);
            match tried {
                None => {
                    let ghost u0 = untried@;
                    untried.push(actions[k]);
                    proof {
                        assert(untried@ == u0.push(actions@[k as int]));
                        assert forall|m: int|
                            0 <= m < k + 1 && spec_find_child(
                                self@,
                                i as int,
                                #[trigger] actions@[m],
                            ) is None implies untried@.contains(actions@[m]) by {
                            if m < k {
                                assert(u0.contains(actions@[m]));
                                let e = choose|e: int| 0 <= e < u0.len() && u0[e] == actions@[m];
                                assert(untried@[e] == actions@[m]);
                            } else {
                                assert(untried@[untried@.len() - 1] == actions@[m]);
                            }
                        }
                    }
                },
                Some(_) => {},
            }
            k = k + 1;
        }
        proof {
            let a0 = choose|a: A|
                mdp.spec_actions(self@[i as int].state).contains(a) && #[trigger] spec_find_child(
                    self@,
                    i as int,
                    a,
                ) is None;
            let m = choose|m: int| 0 <= m < actions@.len() && actions@[m] == a0;
            assert(untried@.contains(actions@[m]));
            assert(untried@.len() > 0);
        }
        let a = policy.pick(&self.nodes[i].state, &untried);
        proof {
            let e = choose|e: int| 0 <= e < untried@.len() && untried@[e] == a;
            assert(mdp.spec_actions(self@[i as int].state).contains(a));
            assert(spec_find_child(self@, i as int, a) is None);
        }
        let c = self.get_or_create_child(i, mdp, &a);
        c
    }

    /// Whether every legal action at node `i`'s state already has a
    /// child: children and legal actions are counted, which decides
    /// it exactly because children actions are distinct and legal.
    pub fn is_fully_expanded<M: MDP<S, A>>(&self, i: usize, mdp: &M) -> (r: bool)
        requires
            tree_wf(self@),
            i < self@.len(),
        ensures
            r == (self@[i as int].children@.len() == mdp.spec_actions(
                self@[i as int].state,
            ).len()),
    {
        let actions = mdp.get_actions(&self.nodes[i].state);
        self.nodes[i].children.len() == actions.len()
    }
}

} // verus!
