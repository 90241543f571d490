use mcts::game::{apply, Action, GameState};
use mcts::search::{
    best_action, evaluate, expand, is_fully_expanded, mcts, search_tree, select, simulate,
    SearchError,
};
use mcts::tree::{backpropagate, Node, Tree};
use rand::rngs::StdRng;
use rand::SeedableRng;

fn initial_state() -> GameState {
    GameState {
        my_score: 0,
        op_score: 0,
        my_possible_actions: vec![Action::Heads, Action::Tails],
        op_possible_actions: vec![Action::Heads, Action::Tails],
        round: 0,
    }
}

fn terminal_state() -> GameState {
    GameState {
        my_score: 6,
        op_score: 4,
        my_possible_actions: vec![Action::Heads, Action::Tails],
        op_possible_actions: vec![Action::Heads, Action::Tails],
        round: 10,
    }
}

fn fresh_tree() -> Tree {
    Tree::new(Node::new(Action::Heads, initial_state(), None))
}

#[test]
fn end_to_end_accumulation_game() {
    let mut rng = StdRng::seed_from_u64(7);
    let t = match search_tree(initial_state(), 1000, &mut rng) {
        Ok(t) => t,
        Err(e) => panic!("search failed: {:?}", e),
    };
    let a = match best_action(&t) {
        Ok(a) => a,
        Err(e) => panic!("no action: {:?}", e),
    };
    assert!(matches!(a, Action::Heads) || matches!(a, Action::Tails));

    // the recommended action's root child holds the maximum visit count
    let root = &t.nodes[0];
    assert!(root.children.len() >= 1);
    let mut max_visits: u64 = 0;
    let mut chosen_visits: u64 = 0;
    let mut k: usize = 0;
    while k < root.children.len() {
        let c = &t.nodes[root.children[k]];
        if c.visits > max_visits {
            max_visits = c.visits;
        }
        if c.action == a && chosen_visits == 0 {
            chosen_visits = c.visits;
        }
        k += 1;
    }
    assert_eq!(chosen_visits, max_visits);
}

#[test]
fn deterministic_under_a_fixed_seed() {
    let mut rng1 = StdRng::seed_from_u64(42);
    let mut rng2 = StdRng::seed_from_u64(42);
    let t1 = search_tree(initial_state(), 300, &mut rng1).unwrap();
    let t2 = search_tree(initial_state(), 300, &mut rng2).unwrap();
    let a1 = best_action(&t1).unwrap();
    let a2 = best_action(&t2).unwrap();
    assert_eq!(a1, a2);
    // identical root visit-count distributions
    assert_eq!(t1.nodes[0].children.len(), t2.nodes[0].children.len());
    let mut k: usize = 0;
    while k < t1.nodes[0].children.len() {
        let c1 = &t1.nodes[t1.nodes[0].children[k]];
        let c2 = &t2.nodes[t2.nodes[0].children[k]];
        assert_eq!(c1.action, c2.action);
        assert_eq!(c1.visits, c2.visits);
        assert_eq!(c1.wins, c2.wins);
        k += 1;
    }
}

#[test]
fn zero_iterations_yields_no_moves() {
    let mut rng = StdRng::seed_from_u64(1);
    let r = mcts(initial_state(), 0, &mut rng);
    assert_eq!(r, Err(SearchError::NoMovesAvailable));
}

#[test]
fn negative_iterations_yield_no_moves() {
    let mut rng = StdRng::seed_from_u64(1);
    let r = mcts(initial_state(), -3, &mut rng);
    assert_eq!(r, Err(SearchError::NoMovesAvailable));
}

#[test]
fn terminal_root_yields_no_moves() {
    let mut rng = StdRng::seed_from_u64(1);
    let r = mcts(terminal_state(), 1000, &mut rng);
    assert_eq!(r, Err(SearchError::NoMovesAvailable));
}

#[test]
fn no_legal_actions_aborts_the_search() {
    let mut rng = StdRng::seed_from_u64(1);
    let s = GameState {
        my_score: 0,
        op_score: 0,
        my_possible_actions: vec![],
        op_possible_actions: vec![],
        round: 0,
    };
    let r = mcts(s, 5, &mut rng);
    assert_eq!(r, Err(SearchError::InvariantViolation));
}

#[test]
fn mcts_returns_a_legal_action() {
    let mut rng = StdRng::seed_from_u64(99);
    let r = mcts(initial_state(), 200, &mut rng);
    match r {
        Ok(a) => assert!(a == Action::Heads || a == Action::Tails),
        Err(e) => panic!("search failed: {:?}", e),
    }
}

#[test]
fn expansion_tries_each_action_once_then_refuses() {
    let mut rng = StdRng::seed_from_u64(3);
    let mut t = fresh_tree();
    let c1 = expand(&mut t, 0, &mut rng).unwrap();
    assert_eq!(c1, 1);
    assert_eq!(t.nodes.len(), 2);
    assert_eq!(t.nodes[1].visits, 1);
    assert_eq!(t.nodes[1].wins, 0);
    assert_eq!(t.nodes[1].parent, Some(0));
    let c2 = expand(&mut t, 0, &mut rng).unwrap();
    assert_eq!(c2, 2);
    assert_ne!(t.nodes[1].action, t.nodes[2].action);
    assert_eq!(t.nodes[0].children, vec![1, 2]);
    // both legal actions are covered now
    assert!(is_fully_expanded(&t, 0));
    let r = expand(&mut t, 0, &mut rng);
    assert_eq!(r, Err(SearchError::InvariantViolation));
    assert_eq!(t.nodes.len(), 3);
}

#[test]
fn expanded_child_state_follows_apply() {
    let mut rng = StdRng::seed_from_u64(5);
    let mut t = fresh_tree();
    let c = expand(&mut t, 0, &mut rng).unwrap();
    let expected = apply(&initial_state(), t.nodes[c].action);
    assert_eq!(t.nodes[c].state, expected);
}

#[test]
fn selection_stops_at_an_unexpanded_node() {
    let t = fresh_tree();
    assert_eq!(select(&t), 0);
    assert!(!is_fully_expanded(&t, 0) || t.nodes[0].children.is_empty());
}

#[test]
fn backpropagation_updates_the_whole_path() {
    let mut rng = StdRng::seed_from_u64(11);
    let mut t = fresh_tree();
    let c = expand(&mut t, 0, &mut rng).unwrap();
    backpropagate(&mut t, c, true);
    assert_eq!(t.nodes[0].visits, 2);
    assert_eq!(t.nodes[0].wins, 1);
    assert_eq!(t.nodes[c].visits, 2);
    assert_eq!(t.nodes[c].wins, 1);
    backpropagate(&mut t, c, false);
    assert_eq!(t.nodes[0].visits, 3);
    assert_eq!(t.nodes[0].wins, 1);
    assert_eq!(t.nodes[c].visits, 3);
    assert_eq!(t.nodes[c].wins, 1);
}

#[test]
fn node_contains_reports_tried_actions() {
    let mut rng = StdRng::seed_from_u64(13);
    let mut t = fresh_tree();
    let c = expand(&mut t, 0, &mut rng).unwrap();
    let tried = t.nodes[c].action;
    let untried = if tried == Action::Heads { Action::Tails } else { Action::Heads };
    assert!(t.nodes[0].contains(&t.nodes, tried));
    assert!(!t.nodes[0].contains(&t.nodes, untried));
}

#[test]
fn evaluate_reads_the_terminal_score() {
    let won = Node::new(Action::Heads, terminal_state(), None);
    assert!(evaluate(&won));
    let lost = Node::new(
        Action::Heads,
        GameState {
            my_score: 4,
            op_score: 6,
            my_possible_actions: vec![Action::Heads, Action::Tails],
            op_possible_actions: vec![Action::Heads, Action::Tails],
            round: 10,
        },
        None,
    );
    assert!(!evaluate(&lost));
}

#[test]
fn simulation_scores_a_terminal_state_exactly() {
    let mut rng = StdRng::seed_from_u64(17);
    let won = Node::new(Action::Heads, terminal_state(), None);
    assert!(simulate(&won, &mut rng));
}

#[test]
fn simulation_respects_a_decided_game() {
    let mut rng = StdRng::seed_from_u64(23);
    // 10 > 2 + 5 remaining rounds: the searcher cannot be caught
    let ahead = Node::new(
        Action::Heads,
        GameState {
            my_score: 10,
            op_score: 2,
            my_possible_actions: vec![Action::Heads, Action::Tails],
            op_possible_actions: vec![Action::Heads, Action::Tails],
            round: 5,
        },
        None,
    );
    let mut k = 0;
    while k < 20 {
        assert!(simulate(&ahead, &mut rng));
        k += 1;
    }
    // 0 + 5 remaining rounds <= 9: the searcher cannot catch up
    let behind = Node::new(
        Action::Heads,
        GameState {
            my_score: 0,
            op_score: 9,
            my_possible_actions: vec![Action::Heads, Action::Tails],
            op_possible_actions: vec![Action::Heads, Action::Tails],
            round: 5,
        },
        None,
    );
    let mut m = 0;
    while m < 20 {
        assert!(!simulate(&behind, &mut rng));
        m += 1;
    }
}

#[test]
fn root_counts_one_visit_per_iteration() {
    let mut rng = StdRng::seed_from_u64(31);
    let t = search_tree(initial_state(), 50, &mut rng).unwrap();
    assert_eq!(t.nodes[0].visits, 51);
    let mut rng2 = StdRng::seed_from_u64(31);
    let t2 = search_tree(terminal_state(), 50, &mut rng2).unwrap();
    assert_eq!(t2.nodes[0].visits, 51);
}

#[test]
fn simulation_leaves_the_node_untouched() {
    let mut rng = StdRng::seed_from_u64(19);
    let node = Node::new(Action::Heads, initial_state(), None);
    let _ = simulate(&node, &mut rng);
    assert_eq!(node.visits, 1);
    assert_eq!(node.wins, 0);
    assert_eq!(node.state, initial_state());
    assert!(node.children.is_empty());
}

#[test]
fn best_action_breaks_ties_by_insertion_order() {
    let root_state = initial_state();
    let heads_state = apply(&root_state, Action::Heads);
    let tails_state = apply(&root_state, Action::Tails);
    let mut root = Node::new(Action::Heads, root_state, None);
    root.children = vec![1, 2];
    let mut heads_child = Node::new(Action::Heads, heads_state, Some(0));
    let mut tails_child = Node::new(Action::Tails, tails_state, Some(0));
    heads_child.visits = 5;
    tails_child.visits = 5;
    let t = Tree { nodes: vec![root, heads_child, tails_child] };
    assert_eq!(best_action(&t), Ok(Action::Heads));
}

#[test]
fn best_action_picks_the_most_visited_child() {
    let root_state = initial_state();
    let heads_state = apply(&root_state, Action::Heads);
    let tails_state = apply(&root_state, Action::Tails);
    let mut root = Node::new(Action::Heads, root_state, None);
    root.children = vec![1, 2];
    let mut heads_child = Node::new(Action::Heads, heads_state, Some(0));
    let mut tails_child = Node::new(Action::Tails, tails_state, Some(0));
    heads_child.visits = 3;
    heads_child.wins = 3;
    tails_child.visits = 7;
    tails_child.wins = 1;
    let t = Tree { nodes: vec![root, heads_child, tails_child] };
    assert_eq!(best_action(&t), Ok(Action::Tails));
}

#[test]
fn best_action_fails_without_children() {
    let t = fresh_tree();
    assert_eq!(best_action(&t), Err(SearchError::NoMovesAvailable));
}
