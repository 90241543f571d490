use mcts::game::{apply, is_terminal, legal_actions, score, Action, GameState};

fn state(my: u32, op: u32, round: u32) -> GameState {
    GameState {
        my_score: my,
        op_score: op,
        my_possible_actions: vec![Action::Heads, Action::Tails],
        op_possible_actions: vec![Action::Heads, Action::Tails],
        round,
    }
}

#[test]
fn apply_heads_increments_my_score() {
    let s = state(0, 0, 0);
    let r = apply(&s, Action::Heads);
    assert_eq!(r.my_score, 1);
    assert_eq!(r.op_score, 0);
    assert_eq!(r.round, 1);
    assert_eq!(r.my_possible_actions, vec![Action::Heads, Action::Tails]);
}

#[test]
fn apply_tails_increments_op_score() {
    let s = state(3, 4, 5);
    let r = apply(&s, Action::Tails);
    assert_eq!(r.my_score, 3);
    assert_eq!(r.op_score, 5);
    assert_eq!(r.round, 6);
}

#[test]
fn apply_is_pure() {
    let s = state(2, 1, 4);
    let r1 = apply(&s, Action::Heads);
    let r2 = apply(&s, Action::Heads);
    assert_eq!(r1, r2);
    let r3 = apply(&s, Action::Tails);
    let r4 = apply(&s, Action::Tails);
    assert_eq!(r3, r4);
}

#[test]
fn score_is_strict_comparison() {
    assert!(score(&state(6, 4, 10)));
    assert!(!score(&state(5, 5, 10)));
    assert!(!score(&state(4, 6, 10)));
}

#[test]
fn is_terminal_at_round_limit() {
    assert!(!is_terminal(&state(0, 0, 0)));
    assert!(!is_terminal(&state(4, 5, 9)));
    assert!(is_terminal(&state(4, 6, 10)));
}

#[test]
fn legal_actions_lists_the_party_moves() {
    let s = state(0, 0, 0);
    assert_eq!(legal_actions(&s), vec![Action::Heads, Action::Tails]);
}
