//! The four phases of the search — selection, expansion, simulation and
//! backpropagation — together with the move selector and the driving loop.

use vstd::arithmetic::div_mod::{lemma_div_is_ordered, lemma_div_multiples_vanish};
use vstd::prelude::*;
use vstd::set_lib::lemma_len_subset;

use crate::game::{
    apply, clone_state, is_terminal, lemma_rollout_forced, lemma_rollout_step, rollout_reaches,
    score, spec_apply, spec_is_terminal, spec_legal, spec_score, state_wf, Action, GameState,
    StateView, ROUND_LIMIT,
};
use crate::numeric::{isqrt, log2_floor, spec_isqrt, spec_log2};
use crate::sampling::random_below;
use crate::tree::{
    backpropagate, child_actions, lemma_on_path_to_root, node_wf, nodes_wf, tree_wf, Node, Tree,
};

verus! {

/// How a search pass can fail. All three stand for contract violations: the
/// engine aborts the search rather than guessing a move.
#[derive(Clone, Copy, PartialEq, Eq, Structural, Debug)]
pub enum SearchError {
    /// Expansion was invoked on a fully-expanded or terminal node.
    InvariantViolation,
    /// Move selection found no children at the root.
    NoMovesAvailable,
    /// Expansion found no untried action although the node was not fully
    /// expanded.
    NoLegalActions,
}

/// The confidence-bound score of a child, in millionths: the win rate plus
/// the exploration term `sqrt(2 ln(parent visits) / visits)`, both evaluated
/// in integer fixed point (the natural logarithm as the floor base-two
/// logarithm times `ln 2`).
pub open spec fn spec_uct(wins: int, visits: int, parent_visits: int) -> int {
    wins * 1000000 / visits + spec_isqrt(
        2 * (spec_log2(parent_visits) * 693147) / visits * 1000000,
    )
}

/// The confidence-bound score of a child with the given statistics, under a
/// parent with `parent_visits` visits.
pub fn uct_value(wins: u64, visits: u64, parent_visits: u64) -> (r: u64)
    requires
        1 <= visits <= 0xFFFF_FFFFu64,
        wins <= visits,
        1 <= parent_visits <= 0xFFFF_FFFFu64,
    ensures
        r == spec_uct(wins as int, visits as int, parent_visits as int),
{
    proof {
        assert(wins * 1000000 <= 0xFFFF_FFFFi64 * 1000000) by (nonlinear_arith)
            requires
                wins <= 0xFFFF_FFFFu64,
        ;
    }
    let exploit: u64 = wins * 1000000 / visits;
    let lg: u32 = log2_floor(parent_visits);
    let ln_term: u64 = (lg as u64) * 693147;
    let inner: u64 = 2 * ln_term / visits * 1000000;
    let explore: u64 = isqrt(inner);
    proof {
        // The exploitation term is a rate: at most one, in millionths.
        lemma_div_is_ordered(wins * 1000000, visits * 1000000, visits as int);
        lemma_div_multiples_vanish(1000000, visits as int);
        assert(visits * 1000000 == (visits as int) * 1000000);
        assert((visits as int) * 1000000 / (visits as int) == 1000000) by {
            assert((visits as int) * 1000000 == 1000000 * (visits as int));
        }
        assert(exploit <= 1000000);
        // The exploration term is the root of a bounded radicand.
        assert(explore <= inner) by (nonlinear_arith)
            requires
                0 <= explore,
                (explore as int) * (explore as int) <= inner,
        ;
    }
    exploit + explore
}

/// A node is fully expanded when its children cover every legal action.
pub open spec fn spec_fully_expanded(nodes: Seq<Node>, i: int) -> bool {
    nodes[i].children@.len() >= spec_legal(nodes[i].state@).len()
}

/// Whether the children of node `i` cover every legal action from its state.
pub fn is_fully_expanded(tree: &Tree, i: usize) -> (r: bool)
    requires
        i < tree.nodes@.len(),
    ensures
        r == spec_fully_expanded(tree.nodes@, i as int),
{
    tree.nodes[i].children.len() >= tree.nodes[i].state.my_possible_actions.len()
}

/// The outcome at a node whose state is already terminal, read directly from
/// the game model instead of a rollout.
pub fn evaluate(node: &Node) -> (r: bool)
    requires
        spec_is_terminal(node.state@),
    ensures
        r == spec_score(node.state@),
{
    score(&node.state)
}

/// Estimates the outcome below `node` by playing uniformly random legal
/// actions on a detached copy of its state until the game ends, then scoring
/// the final state. The tree itself is never touched. Which terminal state
/// is reached depends on the random draws, but the result is always the
/// score of some terminal state reachable from the node's state by legal
/// play: on an already terminal state that is the exact score, and on a
/// game one side has already put out of reach the outcome is fixed.
pub fn simulate(node: &Node, rng: &mut rand::rngs::StdRng) -> (r: bool)
    requires
        state_wf(node.state@),
        spec_legal(node.state@).len() > 0 || spec_is_terminal(node.state@),
    ensures
        exists|t: StateView|
            #[trigger] rollout_reaches(node.state@, t) && spec_is_terminal(t) && r == spec_score(
                t,
            ),
        spec_is_terminal(node.state@) ==> r == spec_score(node.state@),
        node.state@.my_score > node.state@.op_score + (ROUND_LIMIT - node.state@.round) ==> r,
        node.state@.my_score + (ROUND_LIMIT - node.state@.round) <= node.state@.op_score ==> !r,
{
    let mut s: GameState = clone_state(&node.state);
    proof {
        assert(rollout_reaches(node.state@, s@));
    }
    while s.round < ROUND_LIMIT
        invariant
            state_wf(s@),
            spec_legal(s@) == spec_legal(node.state@),
            spec_legal(s@).len() > 0 || spec_is_terminal(s@),
            spec_is_terminal(node.state@) ==> s@ == node.state@,
            rollout_reaches(node.state@, s@),
        decreases ROUND_LIMIT - s.round,
    {
        let len = s.my_possible_actions.len();
        let k = random_below(rng, len);
        let a = s.my_possible_actions[k];
        proof {
            assert(spec_legal(s@).contains(a));
        }
        let ghost sm = s@;
        s = apply(&s, a);
        proof {
            lemma_rollout_step(node.state@, sm, a);
        }
    }
    proof {
        lemma_rollout_forced(node.state@, s@);
    }
    score(&s)
}

/// Pairwise-distinct values that all occur in `b` cannot outnumber `b`.
proof fn lemma_distinct_members_bound(a: Seq<Action>, b: Seq<Action>)
    requires
        a.no_duplicates(),
        forall|k: int| 0 <= k < a.len() ==> b.contains(#[trigger] a[k]),
    ensures
        a.len() <= b.len(),
{
    a.unique_seq_to_set();
    b.lemma_cardinality_of_set();
    assert forall|x: Action| a.to_set().contains(x) implies b.to_set().contains(x) by {
        assert(a.contains(x));
        let k = choose|k: int| 0 <= k < a.len() && a[k] == x;
        assert(b.contains(a[k]));
    }
    lemma_len_subset(a.to_set(), b.to_set());
}

/// No node has two children for one action, and its children never outnumber
/// the legal actions from its state.
pub proof fn lemma_children_bounded(t: Tree, i: int)
    requires
        tree_wf(t),
        0 <= i < t.nodes@.len(),
    ensures
        child_actions(t.nodes@, t.nodes@[i]).no_duplicates(),
        t.nodes@[i].children@.len() <= spec_legal(t.nodes@[i].state@).len(),
{
    assert(node_wf(t.nodes@, i));
    let n = t.nodes@[i];
    let ca = child_actions(t.nodes@, n);
    let legal = spec_legal(n.state@);
    assert forall|k: int| 0 <= k < ca.len() implies legal.contains(#[trigger] ca[k]) by {
        assert(legal.contains(t.nodes@[n.children@[k] as int].action));
    }
    lemma_distinct_members_bound(ca, legal);
}

fn push_child(nodes: &mut Vec<Node>, i: usize, c: usize)
    requires
        i < old(nodes)@.len(),
    ensures
        final(nodes)@.len() == old(nodes)@.len(),
        forall|j: int|
            0 <= j < old(nodes)@.len() && j != i ==> #[trigger] final(nodes)@[j] == old(
                nodes,
            )@[j],
        final(nodes)@[i as int].children@ == old(nodes)@[i as int].children@.push(c),
        final(nodes)@[i as int].visits == old(nodes)@[i as int].visits,
        final(nodes)@[i as int].wins == old(nodes)@[i as int].wins,
        final(nodes)@[i as int].action == old(nodes)@[i as int].action,
        final(nodes)@[i as int].state == old(nodes)@[i as int].state,
        final(nodes)@[i as int].parent == old(nodes)@[i as int].parent,
{
    let n = &mut nodes[i];
    n.children.push(c);
}

/// Materializes one untried legal action of node `i` as a new child: the
/// action is drawn uniformly at random from the untried ones, the child
/// state comes from `apply`, and the child starts with one visit and no
/// wins. Asking to expand a terminal or fully-expanded node is a contract
/// violation and leaves the tree untouched; under the tree invariant a node
/// that is not fully expanded always has an untried action, so
/// `NoLegalActions` never comes back.
pub fn expand(tree: &mut Tree, i: usize, rng: &mut rand::rngs::StdRng) -> (r: Result<
    usize,
    SearchError,
>)
    requires
        tree_wf(*old(tree)),
        i < old(tree).nodes@.len(),
    ensures
        tree_wf(*final(tree)),
        match r {
            Result::Ok(c) => {
                &&& !spec_is_terminal(old(tree).nodes@[i as int].state@)
                &&& !spec_fully_expanded(old(tree).nodes@, i as int)
                &&& c == old(tree).nodes@.len()
                &&& final(tree).nodes@.len() == old(tree).nodes@.len() + 1
                &&& forall|j: int|
                    0 <= j < old(tree).nodes@.len() && j != i ==> #[trigger] final(tree).nodes@[j]
                        == old(tree).nodes@[j]
                &&& final(tree).nodes@[i as int].children@ == old(tree).nodes@[
                    i as int
                ].children@.push(c)
                &&& final(tree).nodes@[i as int].visits == old(tree).nodes@[i as int].visits
                &&& final(tree).nodes@[i as int].wins == old(tree).nodes@[i as int].wins
                &&& final(tree).nodes@[i as int].action == old(tree).nodes@[i as int].action
                &&& final(tree).nodes@[i as int].state == old(tree).nodes@[i as int].state
                &&& final(tree).nodes@[i as int].parent == old(tree).nodes@[i as int].parent
                &&& final(tree).nodes@[c as int].visits == 1
                &&& final(tree).nodes@[c as int].wins == 0
                &&& final(tree).nodes@[c as int].parent == Some(i)
                &&& spec_legal(old(tree).nodes@[i as int].state@).contains(
                    final(tree).nodes@[c as int].action,
                )
                &&& !child_actions(old(tree).nodes@, old(tree).nodes@[i as int]).contains(
                    final(tree).nodes@[c as int].action,
                )
                &&& final(tree).nodes@[c as int].state@ == spec_apply(
                    old(tree).nodes@[i as int].state@,
                    final(tree).nodes@[c as int].action,
                )
            },
            Result::Err(e) => {
                &&& e == SearchError::InvariantViolation
                &&& (spec_is_terminal(old(tree).nodes@[i as int].state@) || spec_fully_expanded(
                    old(tree).nodes@,
                    i as int,
                ))
                &&& *final(tree) == *old(tree)
            },
        },
{
    proof {
        assert(node_wf(tree.nodes@, i as int));
    }
    let terminal = is_terminal(&tree.nodes[i].state);
    let full = is_fully_expanded(tree, i);
    if terminal || full {
        return Result::Err(SearchError::InvariantViolation);
    }
    let ghost orig = tree.nodes@;
    let n_legal = tree.nodes[i].state.my_possible_actions.len();
    let mut untried: Vec<Action> = Vec::new();
    let mut k: usize = 0;
    while k < n_legal
        invariant
            tree.nodes@ == orig,
            nodes_wf(orig),
            i < orig.len(),
            n_legal == spec_legal(orig[i as int].state@).len(),
            k <= n_legal,
            forall|m: int|
                0 <= m < untried@.len() ==> spec_legal(orig[i as int].state@).contains(
                    #[trigger] untried@[m],
                ) && !child_actions(orig, orig[i as int]).contains(untried@[m]),
            forall|j: int|
                0 <= j < k && !child_actions(orig, orig[i as int]).contains(
                    #[trigger] spec_legal(orig[i as int].state@)[j],
                ) ==> untried@.contains(spec_legal(orig[i as int].state@)[j]),
        decreases n_legal - k,
    {
        proof {
            assert(node_wf(orig, i as int));
        }
        let a = tree.nodes[i].state.my_possible_actions[k];
        let already = tree.nodes[i].contains(&tree.nodes, a);
        let ghost prev = untried@;
        if !already {
            untried.push(a);
        }
        k = k + 1;
        proof {
            let io = i as int;
            let legal = spec_legal(orig[io].state@);
            let ca = child_actions(orig, orig[io]);
            assert(legal[k - 1] == a);
            assert(legal.contains(legal[k - 1]));
            assert forall|j: int|
                0 <= j < k && !ca.contains(#[trigger] legal[j]) implies untried@.contains(
                legal[j],
            ) by {
                if j < k - 1 {
                    assert(prev.contains(legal[j]));
                    let m = choose|m: int| 0 <= m < prev.len() && prev[m] == legal[j];
                    assert(untried@[m] == legal[j]);
                } else {
                    assert(!already);
                    assert(untried@[untried@.len() - 1] == a);
                }
            }
        }
    }
    if untried.len() == 0 {
        proof {
            let n = orig[i as int];
            let legal = spec_legal(n.state@);
            let ca = child_actions(orig, n);
            assert(node_wf(orig, i as int));
            assert forall|j: int| 0 <= j < legal.len() implies ca.contains(#[trigger] legal[j]) by {
                if !ca.contains(legal[j]) {
                    assert(untried@.contains(legal[j]));
                }
            }
            lemma_distinct_members_bound(legal, ca);
            assert(false);
        }
        return Result::Err(SearchError::NoLegalActions);
    }
    let idx = random_below(rng, untried.len());
    let a = untried[idx];
    let child_state = apply(&tree.nodes[i].state, a);
    let c = tree.nodes.len();
    let new_node = Node::new(a, child_state, Some(i));
    tree.nodes.push(new_node);
    push_child(&mut tree.nodes, i, c);
    proof {
        let nodes2 = tree.nodes@;
        let ci = c as int;
        let io = i as int;
        assert(nodes2.len() == orig.len() + 1);
        assert(forall|j: int|
            0 <= j < orig.len() && j != io ==> #[trigger] nodes2[j] == orig[j]);
        assert(forall|j: int|
            0 <= j < orig.len() ==> #[trigger] nodes2[j].parent == orig[j].parent
                && nodes2[j].action == orig[j].action && nodes2[j].state == orig[j].state);
        assert(nodes2[0].state == orig[0].state);
        assert forall|ii: int| 0 <= ii < nodes2.len() implies #[trigger] node_wf(nodes2, ii) by {
            if ii == ci {
                // the freshly created child
                assert(node_wf(orig, io));
                assert(nodes2[ci].state@ == spec_apply(orig[io].state@, a));
                assert(nodes2[ci].state@.my_actions == nodes2[0].state@.my_actions);
                assert(nodes2[ci].children@.len() == 0);
                assert(child_actions(nodes2, nodes2[ci]).len() == 0);
                assert(node_wf(nodes2, ci));
            } else if ii == io {
                // the parent gained one child edge
                assert(node_wf(orig, io));
                let n_old = orig[io];
                let n_new = nodes2[io];
                assert(n_new.children@ == n_old.children@.push(c));
                let ca_old = child_actions(orig, n_old);
                let ca_new = child_actions(nodes2, n_new);
                assert forall|m: int| 0 <= m < n_old.children@.len() implies #[trigger] ca_new[m]
                    == ca_old[m] by {
                    assert(n_new.children@[m] == n_old.children@[m]);
                    assert(io < n_old.children@[m] && n_old.children@[m] < orig.len());
                    assert(nodes2[n_old.children@[m] as int].action == orig[
                        n_old.children@[m] as int
                    ].action);
                }
                assert(ca_new[n_old.children@.len() as int] == nodes2[ci].action);
                assert(ca_new =~= ca_old.push(a));
                assert(!ca_old.contains(a));
                assert forall|m1: int, m2: int|
                    0 <= m1 < ca_new.len() && 0 <= m2 < ca_new.len() && m1 != m2 implies ca_new[m1]
                    != ca_new[m2] by {
                    if m1 < ca_old.len() && m2 < ca_old.len() {
                        assert(ca_old.no_duplicates());
                    } else if m1 < ca_old.len() {
                        assert(ca_new[m2] == a);
                        assert(ca_old[m1] != a) by {
                            if ca_old[m1] == a {
                                assert(ca_old.contains(a));
                            }
                        }
                    } else {
                        assert(ca_new[m1] == a);
                        assert(ca_old[m2] != a) by {
                            if ca_old[m2] == a {
                                assert(ca_old.contains(a));
                            }
                        }
                    }
                }
                assert(ca_new.no_duplicates());
                assert(node_wf(nodes2, io));
            } else {
                // untouched nodes: their children, and those children's
                // shapes, are as before
                assert(node_wf(orig, ii));
                assert(nodes2[ii] == orig[ii]);
                let n = orig[ii];
                assert forall|m: int| 0 <= m < n.children@.len() implies {
                    let cc = nodes2[#[trigger] n.children@[m] as int];
                    &&& ii < n.children@[m] && n.children@[m] < nodes2.len()
                    &&& cc.parent == Some(ii as usize)
                    &&& spec_legal(n.state@).contains(cc.action)
                    &&& cc.state@ == spec_apply(n.state@, cc.action)
                } by {
                    assert(ii < n.children@[m] && n.children@[m] < orig.len());
                    assert(nodes2[n.children@[m] as int].parent == orig[
                        n.children@[m] as int
                    ].parent);
                }
                assert(child_actions(nodes2, nodes2[ii]) =~= child_actions(orig, orig[ii]));
                assert(node_wf(nodes2, ii));
            }
        }
    }
    Result::Ok(c)
}

/// The confidence-bound score of the `k`-th child of node `i`.
pub open spec fn spec_child_uct(nodes: Seq<Node>, i: int, k: int) -> int {
    let c = nodes[nodes[i].children@[k] as int];
    spec_uct(c.wins as int, c.visits as int, nodes[i].visits as int)
}

/// The `k`-th child of node `i` carries the highest confidence-bound score,
/// and is the first child in insertion order to do so.
pub open spec fn is_uct_argmax(nodes: Seq<Node>, i: int, k: int) -> bool {
    &&& 0 <= k < nodes[i].children@.len()
    &&& forall|m: int|
        0 <= m < nodes[i].children@.len() ==> #[trigger] spec_child_uct(nodes, i, m)
            <= spec_child_uct(nodes, i, k)
    &&& forall|m: int| 0 <= m < k ==> #[trigger] spec_child_uct(nodes, i, m) < spec_child_uct(
        nodes,
        i,
        k,
    )
}

/// The child of node `i` that maximizes the confidence-bound score; exact
/// ties go to the earliest child in insertion order.
pub fn best_child(tree: &Tree, i: usize) -> (r: usize)
    requires
        tree_wf(*tree),
        i < tree.nodes@.len(),
        tree.nodes@[i as int].children@.len() > 0,
    ensures
        i < r < tree.nodes@.len(),
        exists|k: int|
            #[trigger] is_uct_argmax(tree.nodes@, i as int, k) && r == tree.nodes@[
                i as int
            ].children@[k],
{
    proof {
        assert(node_wf(tree.nodes@, i as int));
    }
    let n_children = tree.nodes[i].children.len();
    let parent_visits = tree.nodes[i].visits;
    let c0 = tree.nodes[i].children[0];
    proof {
        assert(node_wf(tree.nodes@, c0 as int));
    }
    let mut best_k: usize = 0;
    let mut best_score: u64 = uct_value(tree.nodes[c0].wins, tree.nodes[c0].visits, parent_visits);
    let mut k: usize = 1;
    while k < n_children
        invariant
            tree_wf(*tree),
            i < tree.nodes@.len(),
            n_children == tree.nodes@[i as int].children@.len(),
            parent_visits == tree.nodes@[i as int].visits,
            best_k < k <= n_children,
            best_score == spec_child_uct(tree.nodes@, i as int, best_k as int),
            forall|m: int|
                0 <= m < k ==> #[trigger] spec_child_uct(tree.nodes@, i as int, m) <= best_score,
            forall|m: int|
                0 <= m < best_k ==> #[trigger] spec_child_uct(tree.nodes@, i as int, m)
                    < best_score,
        decreases n_children - k,
    {
        proof {
            assert(node_wf(tree.nodes@, i as int));
        }
        let c = tree.nodes[i].children[k];
        proof {
            assert(node_wf(tree.nodes@, c as int));
        }
        let score_k = uct_value(tree.nodes[c].wins, tree.nodes[c].visits, parent_visits);
        if score_k > best_score {
            best_k = k;
            best_score = score_k;
        }
        k = k + 1;
    }
    proof {
        assert(is_uct_argmax(tree.nodes@, i as int, best_k as int));
        assert(node_wf(tree.nodes@, i as int));
    }
    tree.nodes[i].children[best_k]
}

/// A node worth descending past: not terminal, fully expanded, and with at
/// least one child to descend into.
pub open spec fn spec_can_descend(nodes: Seq<Node>, i: int) -> bool {
    &&& !spec_is_terminal(nodes[i].state@)
    &&& spec_fully_expanded(nodes, i)
    &&& nodes[i].children@.len() > 0
}

/// `r` is reached from `i` by a chain of descents, each into the child with
/// the best confidence-bound score (first in insertion order on ties), taken
/// only at nodes worth descending past.
pub open spec fn descends_to(nodes: Seq<Node>, i: int, r: int) -> bool
    decreases nodes.len() - i,
{
    r == i || (0 <= i < nodes.len() && spec_can_descend(nodes, i) && exists|k: int|
        #[trigger] is_uct_argmax(nodes, i, k) && i < nodes[i].children@[k] && nodes[i].children@[k]
            < nodes.len() && descends_to(nodes, nodes[i].children@[k] as int, r))
}

/// A chain of best-scored descents grows by one step at its lower end.
proof fn lemma_descends_step(nodes: Seq<Node>, i: int, m: int, c: int)
    requires
        descends_to(nodes, i, m),
        0 <= i < nodes.len(),
        0 <= m < nodes.len(),
        spec_can_descend(nodes, m),
        exists|k: int| #[trigger] is_uct_argmax(nodes, m, k) && c == nodes[m].children@[k],
        m < c < nodes.len(),
    ensures
        descends_to(nodes, i, c),
    decreases nodes.len() - i,
{
    if i == m {
        let k = choose|k: int| #[trigger] is_uct_argmax(nodes, m, k) && c == nodes[m].children@[k];
        assert(descends_to(nodes, c, c));
        assert(is_uct_argmax(nodes, i, k) && i < nodes[i].children@[k] && nodes[i].children@[k]
            < nodes.len() && descends_to(nodes, nodes[i].children@[k] as int, c));
    } else {
        let k0 = choose|k: int|
            #[trigger] is_uct_argmax(nodes, i, k) && i < nodes[i].children@[k]
                && nodes[i].children@[k] < nodes.len() && descends_to(
                nodes,
                nodes[i].children@[k] as int,
                m,
            );
        lemma_descends_step(nodes, nodes[i].children@[k0] as int, m, c);
        assert(is_uct_argmax(nodes, i, k0) && i < nodes[i].children@[k0] && nodes[i].children@[k0]
            < nodes.len() && descends_to(nodes, nodes[i].children@[k0] as int, c));
    }
}

/// Walks from the root towards the leaves, descending into the child with
/// the best confidence-bound score while the current node is fully expanded,
/// has a child, and is not terminal. The node it stops at is where expansion
/// or terminal evaluation applies.
pub fn select(tree: &Tree) -> (r: usize)
    requires
        tree_wf(*tree),
    ensures
        r < tree.nodes@.len(),
        !spec_can_descend(tree.nodes@, r as int),
        descends_to(tree.nodes@, 0, r as int),
{
    let mut cur: usize = 0;
    loop
        invariant
            tree_wf(*tree),
            cur < tree.nodes@.len(),
            descends_to(tree.nodes@, 0, cur as int),
        ensures
            cur < tree.nodes@.len() && !spec_can_descend(tree.nodes@, cur as int)
                && descends_to(tree.nodes@, 0, cur as int),
        decreases tree.nodes@.len() - cur,
    {
        let terminal = is_terminal(&tree.nodes[cur].state);
        let full = is_fully_expanded(tree, cur);
        let has_children = tree.nodes[cur].children.len() > 0;
        if terminal || !full || !has_children {
            break ;
        }
        let ghost prev = cur as int;
        cur = best_child(tree, cur);
        proof {
            lemma_descends_step(tree.nodes@, 0, prev, cur as int);
        }
    }
    cur
}

/// The visit count of the `k`-th child of node `i`.
pub open spec fn spec_child_visits(nodes: Seq<Node>, i: int, k: int) -> int {
    nodes[nodes[i].children@[k] as int].visits as int
}

/// The `k`-th child of node `i` carries the highest visit count, and is the
/// first child in insertion order to do so.
pub open spec fn is_visit_argmax(nodes: Seq<Node>, i: int, k: int) -> bool {
    &&& 0 <= k < nodes[i].children@.len()
    &&& forall|m: int|
        0 <= m < nodes[i].children@.len() ==> #[trigger] spec_child_visits(nodes, i, m)
            <= spec_child_visits(nodes, i, k)
    &&& forall|m: int| 0 <= m < k ==> #[trigger] spec_child_visits(nodes, i, m)
        < spec_child_visits(nodes, i, k)
}

/// The recommended move once the iteration budget is spent: the action of
/// the most-visited root child, ties going to the earliest child in
/// insertion order. Fails with `NoMovesAvailable` exactly when the root has
/// no children.
pub fn best_action(tree: &Tree) -> (r: Result<Action, SearchError>)
    requires
        tree_wf(*tree),
    ensures
        match r {
            Result::Ok(a) => {
                &&& tree.nodes@[0].children@.len() > 0
                &&& exists|k: int|
                    #[trigger] is_visit_argmax(tree.nodes@, 0, k) && a == tree.nodes@[
                        tree.nodes@[0].children@[k] as int
                    ].action
                &&& spec_legal(tree.nodes@[0].state@).contains(a)
            },
            Result::Err(e) => {
                &&& e == SearchError::NoMovesAvailable
                &&& tree.nodes@[0].children@.len() == 0
            },
        },
{
    proof {
        assert(node_wf(tree.nodes@, 0));
    }
    let n_children = tree.nodes[0].children.len();
    if n_children == 0 {
        return Result::Err(SearchError::NoMovesAvailable);
    }
    let mut best_k: usize = 0;
    let c0 = tree.nodes[0].children[0];
    let mut best_visits: u64 = tree.nodes[c0].visits;
    let mut k: usize = 1;
    while k < n_children
        invariant
            tree_wf(*tree),
            n_children == tree.nodes@[0].children@.len(),
            best_k < k <= n_children,
            best_visits == spec_child_visits(tree.nodes@, 0, best_k as int),
            forall|m: int|
                0 <= m < k ==> #[trigger] spec_child_visits(tree.nodes@, 0, m) <= best_visits,
            forall|m: int|
                0 <= m < best_k ==> #[trigger] spec_child_visits(tree.nodes@, 0, m) < best_visits,
        decreases n_children - k,
    {
        proof {
            assert(node_wf(tree.nodes@, 0));
        }
        let c = tree.nodes[0].children[k];
        let v = tree.nodes[c].visits;
        if v > best_visits {
            best_k = k;
            best_visits = v;
        }
        k = k + 1;
    }
    proof {
        assert(is_visit_argmax(tree.nodes@, 0, best_k as int));
        assert(node_wf(tree.nodes@, 0));
    }
    let c = tree.nodes[0].children[best_k];
    Result::Ok(tree.nodes[c].action)
}

/// Builds the search tree for `state` by running `n_iterations` passes of
/// selection, expansion or terminal evaluation, simulation, and
/// backpropagation. On success the root's children are nonempty exactly when
/// at least one pass ran on a non-terminal root with a legal action; the
/// search aborts with `InvariantViolation` exactly when a pass finds a
/// non-terminal root with no legal action at all.
pub fn search_tree(state: GameState, n_iterations: i32, rng: &mut rand::rngs::StdRng) -> (r: Result<
    Tree,
    SearchError,
>)
    requires
        state_wf(state@),
    ensures
        match r {
            Result::Ok(t) => {
                &&& tree_wf(t)
                &&& t.nodes@[0].state@ == state@
                &&& (t.nodes@[0].children@.len() > 0 <==> (n_iterations > 0 && !spec_is_terminal(
                    state@,
                ) && spec_legal(state@).len() > 0))
                &&& !(n_iterations > 0 && !spec_is_terminal(state@) && spec_legal(state@).len()
                    == 0)
                &&& t.nodes@[0].visits == 1 + (if n_iterations > 0 {
                    n_iterations as int
                } else {
                    0
                })
            },
            Result::Err(e) => {
                &&& e == SearchError::InvariantViolation
                &&& n_iterations > 0
                &&& !spec_is_terminal(state@)
                &&& spec_legal(state@).len() == 0
            },
        },
{
    let ghost sv = state@;
    let root = Node::new(Action::Heads, state, None);
    let mut tree = Tree::new(root);
    proof {
        assert(child_actions(tree.nodes@, tree.nodes@[0]).len() == 0);
        assert(node_wf(tree.nodes@, 0));
        assert(nodes_wf(tree.nodes@));
    }
    let mut it: i32 = 0;
    while it < n_iterations
        invariant
            sv == state@,
            state_wf(sv),
            tree_wf(tree),
            tree.nodes@[0].state@ == sv,
            0 <= it,
            n_iterations > 0 ==> it <= n_iterations,
            n_iterations <= 0 ==> it == 0,
            tree.nodes@.len() <= 1 + it,
            tree.nodes@[0].visits == 1 + it,
            forall|j: int|
                0 <= j < tree.nodes@.len() ==> #[trigger] tree.nodes@[j].visits <= 1 + it,
            spec_is_terminal(sv) ==> tree.nodes@.len() == 1,
            (it > 0 && !spec_is_terminal(sv)) ==> spec_legal(sv).len() > 0,
            (it > 0 && !spec_is_terminal(sv) && spec_legal(sv).len() > 0)
                ==> tree.nodes@[0].children@.len() > 0,
        decreases n_iterations - it,
    {
        let sel = select(&tree);
        let sel_terminal = is_terminal(&tree.nodes[sel].state);
        let ghost pre = tree.nodes@;
        if sel_terminal {
            proof {
                assert(node_wf(pre, sel as int));
            }
            let outcome = evaluate(&tree.nodes[sel]);
            proof {
                lemma_on_path_to_root(pre, sel as int);
            }
            backpropagate(&mut tree, sel, outcome);
            proof {
                assert(forall|j: int|
                    0 <= j < tree.nodes@.len() ==> #[trigger] tree.nodes@[j].children
                        == pre[j].children && tree.nodes@[j].state == pre[j].state
                        && tree.nodes@[j].visits <= pre[j].visits + 1);
                assert(tree.nodes@[0].visits == pre[0].visits + 1);
            }
        } else {
            proof {
                if spec_is_terminal(sv) {
                    assert(tree.nodes@.len() == 1);
                    assert(sel == 0);
                    assert(tree.nodes@[0].state@ == sv);
                    assert(false);
                }
            }
            let res = expand(&mut tree, sel, rng);
            match res {
                Result::Ok(c) => {
                    proof {
                        let ci = c as int;
                        assert(node_wf(tree.nodes@, ci));
                        assert(node_wf(tree.nodes@, 0));
                        // an expandable node has a legal action, and all
                        // nodes share the root's action list
                        assert(!spec_fully_expanded(pre, sel as int));
                        assert(spec_legal(pre[sel as int].state@).len() > 0);
                        assert(node_wf(pre, sel as int));
                        assert(pre[0].state@.my_actions == sv.my_actions);
                        assert(spec_legal(sv).len() > 0);
                        assert(tree.nodes@[ci].state@.my_actions == tree.nodes@[
                            0
                        ].state@.my_actions);
                        assert(spec_legal(tree.nodes@[ci].state@).len() > 0);
                    }
                    let ghost mid = tree.nodes@;
                    let outcome = simulate(&tree.nodes[c], rng);
                    proof {
                        assert(mid[0].visits == pre[0].visits);
                        lemma_on_path_to_root(mid, c as int);
                    }
                    backpropagate(&mut tree, c, outcome);
                    proof {
                        assert(forall|j: int|
                            0 <= j < tree.nodes@.len() ==> #[trigger] tree.nodes@[j].children
                                == mid[j].children && tree.nodes@[j].state == mid[j].state
                                && tree.nodes@[j].visits <= mid[j].visits + 1);
                        assert(tree.nodes@[0].children@.len() > 0);
                        assert(tree.nodes@[0].visits == pre[0].visits + 1);
                    }
                },
                Result::Err(e) => {
                    proof {
                        // the selected node was fully expanded but selection
                        // stopped at it, so it has no child, hence no legal
                        // action; action lists agree across the tree
                        assert(spec_fully_expanded(pre, sel as int));
                        assert(!spec_can_descend(pre, sel as int));
                        assert(pre[sel as int].children@.len() == 0);
                        assert(spec_legal(pre[sel as int].state@).len() == 0);
                        assert(node_wf(pre, sel as int));
                        assert(pre[0].state@.my_actions == sv.my_actions);
                        assert(spec_legal(sv).len() == 0);
                    }
                    return Result::Err(e);
                },
            }
        }
        it = it + 1;
    }
    proof {
        if n_iterations <= 0 || spec_is_terminal(sv) {
            // a lone root cannot have a child: child indices would have to
            // lie strictly between 0 and 1
            assert(tree.nodes@.len() == 1);
            assert(node_wf(tree.nodes@, 0));
            if tree.nodes@[0].children@.len() > 0 {
                assert(0 < tree.nodes@[0].children@[0] && tree.nodes@[0].children@[0]
                    < tree.nodes@.len());
                assert(false);
            }
        }
    }
    Result::Ok(tree)
}

/// One full search: builds the tree for `state` with `n_iterations` passes
/// and returns the recommended action, the most-visited root child's. With
/// no iterations, or from an already terminal state, it fails with
/// `NoMovesAvailable`; on a non-terminal state with no legal action it fails
/// with `InvariantViolation`; on every other input it returns a legal
/// action.
pub fn mcts(state: GameState, n_iterations: i32, rng: &mut rand::rngs::StdRng) -> (r: Result<
    Action,
    SearchError,
>)
    requires
        state_wf(state@),
    ensures
        (n_iterations > 0 && !spec_is_terminal(state@) && spec_legal(state@).len() == 0) ==> r
            == Result::<Action, SearchError>::Err(SearchError::InvariantViolation),
        (n_iterations <= 0 || spec_is_terminal(state@)) ==> r == Result::<
            Action,
            SearchError,
        >::Err(SearchError::NoMovesAvailable),
        (n_iterations > 0 && !spec_is_terminal(state@) && spec_legal(state@).len() > 0) ==> match r {
            Result::Ok(a) => spec_legal(state@).contains(a),
            Result::Err(_) => false,
        },
{
    let ghost sv = state@;
    match search_tree(state, n_iterations, rng) {
        Result::Ok(t) => {
            let res = best_action(&t);
            proof {
                assert(t.nodes@[0].state@ == sv);
            }
            res
        },
        Result::Err(e) => Result::Err(e),
    }
}

} // verus!
