//! The game model: an accumulation game over a fixed number of rounds.
//!
//! The searching party plays one action per round; playing `Heads` raises its
//! own score by one, playing `Tails` raises the opponent's score by one. The
//! game ends after `ROUND_LIMIT` rounds, and the searching party wins when its
//! score is strictly higher than the opponent's.

use vstd::prelude::*;

verus! {

/// Number of rounds after which a game is over.
pub const ROUND_LIMIT: u32 = 10;

/// A move available to the acting party.
#[derive(Clone, Copy, PartialEq, Eq, Structural, Debug)]
pub enum Action {
    Heads,
    Tails,
}

/// A full description of one position of the game. Transitions never mutate a
/// state in place: `apply` builds a fresh successor value.
#[derive(PartialEq, Eq, Clone, Debug)]
pub struct GameState {
    pub my_score: u32,
    pub op_score: u32,
    pub my_possible_actions: Vec<Action>,
    pub op_possible_actions: Vec<Action>,
    pub round: u32,
}

/// The mathematical model of a game state: the two scores, the two action
/// lists as sequences, and the round counter.
pub ghost struct StateView {
    pub my_score: u32,
    pub op_score: u32,
    pub my_actions: Seq<Action>,
    pub op_actions: Seq<Action>,
    pub round: u32,
}

impl View for GameState {
    type V = StateView;

    open spec fn view(&self) -> StateView {
        StateView {
            my_score: self.my_score,
            op_score: self.op_score,
            my_actions: self.my_possible_actions@,
            op_actions: self.op_possible_actions@,
            round: self.round,
        }
    }
}

/// The legal actions of the acting party.
pub open spec fn spec_legal(s: StateView) -> Seq<Action> {
    s.my_actions
}

/// A state the engine can work from: the round counter has not passed the
/// limit, the remaining rounds cannot overflow either score, and the action
/// list enumerates each action at most once (it stands for a set).
pub open spec fn state_wf(s: StateView) -> bool {
    &&& s.round <= ROUND_LIMIT
    &&& s.my_score + (ROUND_LIMIT - s.round) <= u32::MAX
    &&& s.op_score + (ROUND_LIMIT - s.round) <= u32::MAX
    &&& s.my_actions.no_duplicates()
}

/// Whether the game is over in state `s`.
pub open spec fn spec_is_terminal(s: StateView) -> bool {
    s.round >= ROUND_LIMIT
}

/// The outcome of a finished game, from the searching party's perspective.
pub open spec fn spec_score(s: StateView) -> bool {
    s.my_score > s.op_score
}

/// The successor of `s` after the acting party plays `a`.
pub open spec fn spec_apply(s: StateView, a: Action) -> StateView {
    StateView {
        my_score: if a == Action::Heads {
            (s.my_score + 1) as u32
        } else {
            s.my_score
        },
        op_score: if a == Action::Tails {
            (s.op_score + 1) as u32
        } else {
            s.op_score
        },
        my_actions: s.my_actions,
        op_actions: s.op_actions,
        round: (s.round + 1) as u32,
    }
}

/// `t` can be reached from `s` by playing legal actions, one round at a
/// time; reflexively, `s` reaches itself.
pub open spec fn rollout_reaches(s: StateView, t: StateView) -> bool
    decreases ROUND_LIMIT - s.round,
{
    t == s || (s.round < ROUND_LIMIT && exists|a: Action|
        #[trigger] spec_legal(s).contains(a) && rollout_reaches(spec_apply(s, a), t))
}

/// A chain of legal plays grows by one step at its far end.
pub proof fn lemma_rollout_step(s: StateView, m: StateView, a: Action)
    requires
        rollout_reaches(s, m),
        m.round < ROUND_LIMIT,
        spec_legal(m).contains(a),
    ensures
        rollout_reaches(s, spec_apply(m, a)),
    decreases ROUND_LIMIT - s.round,
{
    let t = spec_apply(m, a);
    if s == m {
        assert(rollout_reaches(t, t));
        assert(spec_legal(s).contains(a) && rollout_reaches(spec_apply(s, a), t));
    } else {
        let a0 = choose|a0: Action|
            #[trigger] spec_legal(s).contains(a0) && rollout_reaches(spec_apply(s, a0), m);
        lemma_rollout_step(spec_apply(s, a0), m, a);
        assert(spec_legal(s).contains(a0) && rollout_reaches(spec_apply(s, a0), t));
    }
}

/// Along a chain of legal plays the action lists never change, neither score
/// ever falls, and the two scores together grow by exactly one per round
/// played.
pub proof fn lemma_rollout_accounting(s: StateView, t: StateView)
    requires
        state_wf(s),
        rollout_reaches(s, t),
    ensures
        state_wf(t),
        t.round >= s.round,
        t.my_actions == s.my_actions,
        t.my_score >= s.my_score,
        t.op_score >= s.op_score,
        t.my_score + t.op_score == s.my_score + s.op_score + (t.round - s.round),
    decreases ROUND_LIMIT - s.round,
{
    if s != t {
        let a = choose|a: Action|
            #[trigger] spec_legal(s).contains(a) && rollout_reaches(spec_apply(s, a), t);
        let s1 = spec_apply(s, a);
        assert(state_wf(s1));
        lemma_rollout_accounting(s1, t);
    }
}

/// When one side is already out of the other's reach, every completed
/// playout scores the same way, whatever is played.
pub proof fn lemma_rollout_forced(s: StateView, t: StateView)
    requires
        state_wf(s),
        rollout_reaches(s, t),
        spec_is_terminal(t),
    ensures
        s.my_score > s.op_score + (ROUND_LIMIT - s.round) ==> spec_score(t),
        s.my_score + (ROUND_LIMIT - s.round) <= s.op_score ==> !spec_score(t),
{
    lemma_rollout_accounting(s, t);
}

fn clone_actions(v: &Vec<Action>) -> (r: Vec<Action>)
    ensures
        r@ == v@,
{
    let mut r: Vec<Action> = Vec::new();
    let mut k: usize = 0;
    while k < v.len()
        invariant
            k <= v.len(),
            r@ == v@.take(k as int),
        decreases v.len() - k,
    {
        r.push(v[k]);
        k = k + 1;
        proof {
            assert(r@ =~= v@.take(k as int));
        }
    }
    proof {
        assert(r@ =~= v@);
    }
    r
}

/// A copy of a state, with the same model as the value it copies.
pub fn clone_state(s: &GameState) -> (r: GameState)
    ensures
        r@ == s@,
{
    GameState {
        my_score: s.my_score,
        op_score: s.op_score,
        my_possible_actions: clone_actions(&s.my_possible_actions),
        op_possible_actions: clone_actions(&s.op_possible_actions),
        round: s.round,
    }
}

/// The legal actions of the acting party in state `s`.
pub fn legal_actions(s: &GameState) -> (r: Vec<Action>)
    ensures
        r@ == spec_legal(s@),
{
    clone_actions(&s.my_possible_actions)
}

/// Whether the game is over in state `s`.
pub fn is_terminal(s: &GameState) -> (r: bool)
    ensures
        r == spec_is_terminal(s@),
{
    s.round >= ROUND_LIMIT
}

/// The outcome of a finished game: `true` iff the searching party ended with
/// the strictly higher score. Defined only on terminal states.
pub fn score(s: &GameState) -> (r: bool)
    requires
        spec_is_terminal(s@),
    ensures
        r == spec_score(s@),
{
    s.my_score > s.op_score
}

/// Plays `a` in state `s` and returns the successor state. The transition is
/// a pure function of `(s, a)`: equal inputs always give the equal successor.
pub fn apply(s: &GameState, a: Action) -> (r: GameState)
    requires
        state_wf(s@),
        !spec_is_terminal(s@),
    ensures
        r@ == spec_apply(s@, a),
        state_wf(r@),
{
    GameState {
        my_score: if matches!(a, Action::Heads) {
            s.my_score + 1
        } else {
            s.my_score
        },
        op_score: if matches!(a, Action::Tails) {
            s.op_score + 1
        } else {
            s.op_score
        },
        my_possible_actions: clone_actions(&s.my_possible_actions),
        op_possible_actions: clone_actions(&s.op_possible_actions),
        round: s.round + 1,
    }
}

} // verus!
