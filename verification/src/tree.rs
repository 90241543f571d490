//! The search tree: a flat arena of nodes addressed by index.
//!
//! Index 0 is the root. Every other node keeps the index of its parent, and a
//! parent's index is always smaller than its child's, so walking parent links
//! terminates and backpropagation needs no aliased references. The invariant
//! `tree_wf` ties the whole structure together: statistics in range, child
//! actions legal and pairwise distinct, child states reached by `apply`.

use vstd::prelude::*;

use crate::game::{
    spec_apply, spec_legal, state_wf, Action, GameState,
};

verus! {

/// One vertex of the search tree: cumulative statistics, the action that led
/// here, the state reached, the child indices, and the parent index.
pub struct Node {
    pub visits: u64,
    pub wins: u64,
    pub action: Action,
    pub state: GameState,
    pub children: Vec<usize>,
    pub parent: Option<usize>,
}

/// The tree owns the arena; the root sits at index 0.
pub struct Tree {
    pub nodes: Vec<Node>,
}

/// The actions on the edges from `n` to its children.
pub open spec fn child_actions(nodes: Seq<Node>, n: Node) -> Seq<Action> {
    n.children@.map_values(|c: usize| nodes[c as int].action)
}

/// A freshly created node counts its creation as its first visit; each later
/// backpropagation pass through it adds one more.
pub open spec fn node_wf(nodes: Seq<Node>, i: int) -> bool {
    let n = nodes[i];
    &&& 1 <= n.visits <= 0xFFFF_FFFFu64
    &&& n.wins <= n.visits
    &&& state_wf(n.state@)
    &&& n.state@.my_actions == nodes[0].state@.my_actions
    &&& match n.parent {
        Some(p) => i > 0 && p < i,
        None => i == 0,
    }
    &&& forall|k: int|
        0 <= k < n.children@.len() ==> i < #[trigger] n.children@[k] && n.children@[k]
            < nodes.len()
    &&& forall|k: int|
        0 <= k < n.children@.len() ==> nodes[#[trigger] n.children@[k] as int].parent == Some(
            i as usize,
        )
    &&& forall|k: int|
        0 <= k < n.children@.len() ==> {
            let c = nodes[#[trigger] n.children@[k] as int];
            spec_legal(n.state@).contains(c.action) && c.state@ == spec_apply(n.state@, c.action)
        }
    &&& child_actions(nodes, n).no_duplicates()
}

/// Well-formedness of the whole arena.
pub open spec fn nodes_wf(nodes: Seq<Node>) -> bool {
    &&& nodes.len() >= 1
    &&& forall|i: int| 0 <= i < nodes.len() ==> #[trigger] node_wf(nodes, i)
}

/// Well-formedness of the tree.
pub open spec fn tree_wf(t: Tree) -> bool {
    nodes_wf(t.nodes@)
}

/// `j` lies on the chain of parent links from `i` up to the root (both ends
/// included).
pub open spec fn on_path(nodes: Seq<Node>, i: int, j: int) -> bool
    decreases i,
{
    j == i || (0 <= i < nodes.len() && match nodes[i].parent {
        Some(p) => p < i && on_path(nodes, p as int, j),
        None => false,
    })
}

/// Everything on the path above `i` has an index no larger than `i`.
proof fn lemma_on_path_le(nodes: Seq<Node>, i: int, j: int)
    requires
        on_path(nodes, i, j),
        0 <= i,
    ensures
        0 <= j <= i,
    decreases i,
{
    if j != i {
        match nodes[i].parent {
            Some(p) => {
                lemma_on_path_le(nodes, p as int, j);
            },
            None => {},
        }
    }
}

/// Paths compose: what lies above `m` lies above `i` whenever `m` lies above
/// `i`.
proof fn lemma_on_path_trans(nodes: Seq<Node>, i: int, m: int, j: int)
    requires
        on_path(nodes, i, m),
        on_path(nodes, m, j),
        0 <= i,
    ensures
        on_path(nodes, i, j),
    decreases i,
{
    if i != m {
        match nodes[i].parent {
            Some(p) => {
                lemma_on_path_trans(nodes, p as int, m, j);
            },
            None => {},
        }
    }
}

/// Every node's parent chain descends to the root.
pub proof fn lemma_on_path_to_root(nodes: Seq<Node>, i: int)
    requires
        nodes_wf(nodes),
        0 <= i < nodes.len(),
    ensures
        on_path(nodes, i, 0),
    decreases i,
{
    assert(node_wf(nodes, i));
    if i != 0 {
        match nodes[i].parent {
            Some(p) => {
                lemma_on_path_to_root(nodes, p as int);
            },
            None => {
                assert(false);
            },
        }
    }
}

/// Statistics of all nodes are in range: at least one visit, and never more
/// wins than visits.
pub proof fn lemma_node_stats(t: Tree, i: int)
    requires
        tree_wf(t),
        0 <= i < t.nodes@.len(),
    ensures
        1 <= t.nodes@[i].visits,
        0 <= t.nodes@[i].wins <= t.nodes@[i].visits,
{
    assert(node_wf(t.nodes@, i));
}

impl Node {
    /// A fresh node: one visit (its creation), no wins yet, no children.
    pub fn new(action: Action, state: GameState, parent: Option<usize>) -> (r: Node)
        ensures
            r.visits == 1,
            r.wins == 0,
            r.action == action,
            r.state == state,
            r.children@ == Seq::<usize>::empty(),
            r.parent == parent,
    {
        Node { visits: 1, wins: 0, action, state, children: Vec::new(), parent }
    }

    /// Whether some child of `self` was reached by `action`.
    pub fn contains(&self, nodes: &Vec<Node>, action: Action) -> (r: bool)
        requires
            forall|k: int|
                0 <= k < self.children@.len() ==> #[trigger] self.children@[k] < nodes@.len(),
        ensures
            r == child_actions(nodes@, *self).contains(action),
    {
        let mut k: usize = 0;
        let mut found: bool = false;
        while k < self.children.len()
            invariant
                k <= self.children@.len(),
                forall|m: int|
                    0 <= m < self.children@.len() ==> #[trigger] self.children@[m] < nodes@.len(),
                found == exists|m: int|
                    0 <= m < k && nodes@[#[trigger] self.children@[m] as int].action == action,
            decreases self.children@.len() - k,
        {
            let c: usize = self.children[k];
            if nodes[c].action == action {
                found = true;
            }
            k = k + 1;
        }
        proof {
            let ca = child_actions(nodes@, *self);
            assert(forall|m: int|
                0 <= m < self.children@.len() ==> ca[m] == nodes@[
                    #[trigger] self.children@[m] as int
                ].action);
            if found {
                let m = choose|m: int|
                    0 <= m < self.children@.len() && nodes@[
                        #[trigger] self.children@[m] as int
                    ].action == action;
                assert(ca[m] == action);
            }
        }
        found
    }
}

impl Tree {
    /// A tree holding just the given root.
    pub fn new(root: Node) -> (r: Tree)
        ensures
            r.nodes@.len() == 1,
            r.nodes@[0] == root,
    {
        let mut nodes: Vec<Node> = Vec::new();
        nodes.push(root);
        Tree { nodes }
    }
}

/// `n` is `o` with one visit added, and one win added iff `result` holds;
/// everything else is untouched.
pub open spec fn bumped(o: Node, n: Node, result: bool) -> bool {
    &&& n.visits == o.visits + 1
    &&& n.wins == if result {
        o.wins + 1
    } else {
        o.wins as int
    }
    &&& n.action == o.action
    &&& n.state == o.state
    &&& n.children == o.children
    &&& n.parent == o.parent
}

fn bump_node(nodes: &mut Vec<Node>, i: usize, result: bool)
    requires
        i < old(nodes)@.len(),
        old(nodes)@[i as int].visits < 0xFFFF_FFFFu64,
        old(nodes)@[i as int].wins < 0xFFFF_FFFFu64,
    ensures
        final(nodes)@.len() == old(nodes)@.len(),
        bumped(old(nodes)@[i as int], final(nodes)@[i as int], result),
        forall|j: int|
            0 <= j < old(nodes)@.len() && j != i ==> final(nodes)@[j] == old(nodes)@[j],
{
    let n = &mut nodes[i];
    n.visits = n.visits + 1;
    if result {
        n.wins = n.wins + 1;
    }
}

/// Records the outcome of one playout on every node from `i` up to and
/// including the root: each gains one visit, and one win iff the outcome
/// favours the searching party. No other node changes, so no visit count
/// ever decreases.
pub fn backpropagate(tree: &mut Tree, i: usize, result: bool)
    requires
        tree_wf(*old(tree)),
        i < old(tree).nodes@.len(),
        forall|j: int|
            0 <= j < old(tree).nodes@.len() ==> #[trigger] old(tree).nodes@[j].visits
                < 0xFFFF_FFFFu64,
    ensures
        tree_wf(*final(tree)),
        final(tree).nodes@.len() == old(tree).nodes@.len(),
        forall|j: int|
            0 <= j < old(tree).nodes@.len() && on_path(old(tree).nodes@, i as int, j)
                ==> bumped(old(tree).nodes@[j], #[trigger] final(tree).nodes@[j], result),
        forall|j: int|
            0 <= j < old(tree).nodes@.len() && !on_path(old(tree).nodes@, i as int, j)
                ==> #[trigger] final(tree).nodes@[j] == old(tree).nodes@[j],
        forall|j: int|
            0 <= j < old(tree).nodes@.len() ==> old(tree).nodes@[j].visits
                <= #[trigger] final(tree).nodes@[j].visits,
{
    let ghost orig: Seq<Node> = old(tree).nodes@;
    let mut cur: usize = i;
    let mut done: bool = false;
    while !done
        invariant
            nodes_wf(orig),
            tree.nodes@.len() == orig.len(),
            cur < orig.len(),
            forall|j: int|
                0 <= j < orig.len() ==> #[trigger] orig[j].visits < 0xFFFF_FFFFu64,
            on_path(orig, i as int, cur as int),
            !done ==> forall|j: int|
                0 <= j < orig.len() ==> if on_path(orig, cur as int, j) {
                    #[trigger] tree.nodes@[j] == orig[j]
                } else if on_path(orig, i as int, j) {
                    bumped(orig[j], tree.nodes@[j], result)
                } else {
                    tree.nodes@[j] == orig[j]
                },
            done ==> forall|j: int|
                0 <= j < orig.len() ==> if on_path(orig, i as int, j) {
                    bumped(orig[j], #[trigger] tree.nodes@[j], result)
                } else {
                    tree.nodes@[j] == orig[j]
                },
        decreases cur, (if done { 0int } else { 1int }),
    {
        proof {
            assert(node_wf(orig, cur as int));
            assert(on_path(orig, cur as int, cur as int));
            assert(tree.nodes@[cur as int] == orig[cur as int]);
            assert(orig[cur as int].wins < 0xFFFF_FFFFu64);
        }
        bump_node(&mut tree.nodes, cur, result);
        let parent: Option<usize> = tree.nodes[cur].parent;
        proof {
            assert(tree.nodes@[cur as int].parent == orig[cur as int].parent);
        }
        match parent {
            None => {
                proof {
                    // The root is the only pending node; it was just updated.
                    assert(forall|j: int|
                        0 <= j < orig.len() && on_path(orig, cur as int, j) ==> j == cur as int);
                }
                done = true;
            },
            Some(p) => {
                proof {
                    let c = cur as int;
                    let pi = p as int;
                    assert(orig[c].parent == Some(p));
                    assert(node_wf(orig, c));
                    assert(pi < c);
                    assert(on_path(orig, pi, pi));
                    assert(on_path(orig, c, pi));
                    lemma_on_path_trans(orig, i as int, c, pi);
                    lemma_on_path_le(orig, pi, pi);
                    // Nothing above the parent is the current node again.
                    assert(forall|j: int| on_path(orig, pi, j) ==> j <= pi) by {
                        assert forall|j: int| on_path(orig, pi, j) implies j <= pi by {
                            lemma_on_path_le(orig, pi, j);
                        }
                    }
                    // A node above the current one is above its parent or the
                    // node itself.
                    assert(forall|j: int|
                        on_path(orig, c, j) <==> (j == c || on_path(orig, pi, j)));
                }
                cur = p;
            },
        }
    }
    proof {
        // Shapes were untouched, statistics stayed in range: the invariant
        // carries over to the updated arena.
        assert forall|ii: int| 0 <= ii < tree.nodes@.len() implies #[trigger] node_wf(
            tree.nodes@,
            ii,
        ) by {
            assert(node_wf(orig, ii));
            assert(tree.nodes@[ii].children == orig[ii].children);
            assert(tree.nodes@[0].state == orig[0].state);
            assert(forall|k: int|
                0 <= k < orig[ii].children@.len() ==> tree.nodes@[
                    #[trigger] orig[ii].children@[k] as int
                ].parent == orig[orig[ii].children@[k] as int].parent);
            assert(forall|k: int|
                0 <= k < orig[ii].children@.len() ==> tree.nodes@[
                    #[trigger] orig[ii].children@[k] as int
                ].action == orig[orig[ii].children@[k] as int].action);
            assert(forall|k: int|
                0 <= k < orig[ii].children@.len() ==> tree.nodes@[
                    #[trigger] orig[ii].children@[k] as int
                ].state == orig[orig[ii].children@[k] as int].state);
            assert(child_actions(tree.nodes@, tree.nodes@[ii]) =~= child_actions(orig, orig[ii]));
        }
    }
}

} // verus!
