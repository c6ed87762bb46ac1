//! Blokus players.
use crate::blokus::evaluator::{greedy_score, names_piece};
use crate::blokus::game::{BlokusAction, BlokusState};
use crate::random::random_index;
use crate::text::owned;
use vstd::prelude::*;

verus! {

/// A Blokus player.
pub trait Agent<const B: usize, const P: usize> {
    /// The player's display name, as text.
    spec fn agent_name(&self) -> Seq<char>;

    /// The player's display name.
    fn name(&self) -> (n: &str)
        ensures
            n@ == self.agent_name(),
    ;

    /// Chooses an action for the player to move in `state`: a legal one
    /// unless the game is over or that player has passed.
    fn select_action(&mut self, state: &BlokusState<B, P>) -> (a: BlokusAction)
        requires
            BlokusState::<B, P>::dims_ok(),
            state.wf(),
            state.move_count < 65535,
        ensures
            !(state.spec_terminal() || state.passed@[state.current_player as int]) ==> state.spec_legal(a),
    ;
}

/// A player who has not passed in a game that is not over has a legal move:
/// a placement, or else a pass.
proof fn lemma_some_legal<const B: usize, const P: usize>(state: BlokusState<B, P>) -> (a: BlokusAction)
    ensures
        state.spec_legal(a),
{
    let pl = state.current_player as int;
    if state.spec_has_placement(pl) {
        let (p, o, r, c) = choose|p: u8, o: u8, r: u8, c: u8| #[trigger] state.placement_ok(pl, p, o, r, c);
        let a = BlokusAction::Place { piece_id: p, orientation: o, row: r, col: c };
        assert(state.spec_legal(a));
        a
    } else {
        assert(state.spec_legal(BlokusAction::Pass));
        BlokusAction::Pass
    }
}

/// A human player, known by name.
pub struct HumanAgent {
    name: String,
}

impl HumanAgent {
    pub closed spec fn spec_name(&self) -> Seq<char> {
        self.name@
    }

    /// A human player called `name`.
    pub fn new(name: &str) -> (a: Self)
        ensures
            a.spec_name() == name@,
    {
        HumanAgent { name: owned(name) }
    }

    /// The player's name.
    pub fn name(&self) -> (n: &str)
        ensures
            n@ == self.spec_name(),
    {
        self.name.as_str()
    }
}

/// A player choosing uniformly among the legal actions.
pub struct RandomAgent {
    name: String,
}

impl RandomAgent {
    pub closed spec fn spec_name(&self) -> Seq<char> {
        self.name@
    }

    /// A random player called `name`.
    pub fn new(name: &str) -> (a: Self)
        ensures
            a.spec_name() == name@,
    {
        RandomAgent { name: owned(name) }
    }

    /// One of the legal actions of `state` at random; `Pass` when there are none.
    pub fn pick_action<const B: usize, const P: usize>(&self, state: &BlokusState<B, P>) -> (a: BlokusAction)
        requires
            BlokusState::<B, P>::dims_ok(),
            state.wf(),
        ensures
            (state.spec_terminal() || state.passed@[state.current_player as int]) ==> a == BlokusAction::Pass,
            !(state.spec_terminal() || state.passed@[state.current_player as int]) ==> state.spec_legal(a),
    {
        let mut legal: Vec<BlokusAction> = Vec::new();
        state.legal_actions(&mut legal);
        if legal.len() == 0 {
            proof {
                if !(state.spec_terminal() || state.passed@[state.current_player as int]) {
                    let b = lemma_some_legal(*state);
                    assert(legal@.contains(b));
                }
            }
            return BlokusAction::Pass;
        }
        let i = random_index(legal.len());
        assert(legal@.contains(legal@[i as int]));
        legal[i]
    }
}

impl<const B: usize, const P: usize> Agent<B, P> for RandomAgent {
    open spec fn agent_name(&self) -> Seq<char> {
        self.spec_name()
    }

    fn name(&self) -> (n: &str) {
        self.name.as_str()
    }

    /// A legal action at random (see `pick_action`).
    fn select_action(&mut self, state: &BlokusState<B, P>) -> (a: BlokusAction)
        ensures
            (state.spec_terminal() || state.passed@[state.current_player as int]) ==> a == BlokusAction::Pass,
    {
        self.pick_action(state)
    }
}

/// A greedy player: the legal move with the best `greedy_score` (placed
/// squares and the corners left open), the first listed on a tie.
pub struct HeuristicAgent {
    name: String,
}

impl HeuristicAgent {
    pub closed spec fn spec_name(&self) -> Seq<char> {
        self.name@
    }

    /// A greedy player called `name`.
    pub fn new(name: &str) -> (a: Self)
        ensures
            a.spec_name() == name@,
    {
        HeuristicAgent { name: owned(name) }
    }

    /// A legal move of the best greedy score; `Pass` when there is no legal
    /// move.
    pub fn pick_action<const B: usize, const P: usize>(&self, state: &BlokusState<B, P>) -> (a: BlokusAction)
        requires
            BlokusState::<B, P>::dims_ok(),
            state.wf(),
            state.move_count < 65535,
        ensures
            (state.spec_terminal() || state.passed@[state.current_player as int]) ==> a == BlokusAction::Pass,
            !(state.spec_terminal() || state.passed@[state.current_player as int]) ==> {
                &&& state.spec_legal(a)
                &&& forall|b: BlokusAction|
                    #[trigger] state.spec_legal(b) ==> greedy_score(*state, b, state.current_player)
                        <= greedy_score(*state, a, state.current_player)
                &&& exists|k: int|
                    0 <= k < state.legal_list().len() && state.legal_list()[k] == a && forall|j: int|
                        0 <= j < k ==> greedy_score(*state, #[trigger] state.legal_list()[j], state.current_player)
                            < greedy_score(*state, a, state.current_player)
            },
    {
        let mut legal: Vec<BlokusAction> = Vec::new();
        state.legal_actions(&mut legal);
        let n = legal.len();
        if n == 0 {
            proof {
                if !(state.spec_terminal() || state.passed@[state.current_player as int]) {
                    let pl = state.current_player as int;
                    if state.spec_has_placement(pl) {
                        let (p, o, r, c) = choose|p: u8, o: u8, r: u8, c: u8| #[trigger] state.placement_ok(
                            pl,
                            p,
                            o,
                            r,
                            c,
                        );
                        assert(state.spec_legal(BlokusAction::Place { piece_id: p, orientation: o, row: r, col: c }));
                    } else {
                        assert(state.spec_legal(BlokusAction::Pass));
                    }
                }
            }
            return BlokusAction::Pass;
        }
        let mut picks: Vec<usize> = Vec::new();
        while picks.len() < n
            invariant
                n == legal.len(),
                picks.len() <= n,
                forall|i: int| 0 <= i < picks.len() ==> #[trigger] picks[i] == i,
            decreases n - picks.len(),
        {
            let i = picks.len();
            picks.push(i);
        }
        proof {
            assert forall|i: int| 0 <= i < legal@.len() implies names_piece(#[trigger] legal@[i]) by {
                assert(legal@.contains(legal@[i]));
                assert(state.spec_legal(legal@[i]));
            }
        }
        let a = state.best_of_sample(legal.as_slice(), picks.as_slice(), state.current_player as usize);
        proof {
            let k = choose|k: int|
                #![trigger picks[k]]
                0 <= k < picks.len() && a == legal@[picks[k] as int] && (forall|j: int|
                    0 <= j < picks.len() ==> greedy_score(*state, #[trigger] legal@[picks[j] as int], state.current_player)
                        <= greedy_score(*state, a, state.current_player)) && (forall|j: int|
                    0 <= j < k ==> greedy_score(*state, #[trigger] legal@[picks[j] as int], state.current_player)
                        < greedy_score(*state, a, state.current_player));
            assert(picks[k] == k);
            assert(legal@.contains(a));
            assert forall|j: int| 0 <= j < k implies greedy_score(*state, #[trigger] legal@[j], state.current_player)
                < greedy_score(*state, a, state.current_player) by {
                assert(picks[j] == j);
            }
            assert forall|b: BlokusAction| #[trigger] state.spec_legal(b) implies greedy_score(
                *state,
                b,
                state.current_player,
            ) <= greedy_score(*state, a, state.current_player) by {
                assert(legal@.contains(b));
                let j = choose|j: int| 0 <= j < legal@.len() && legal@[j] == b;
                assert(picks[j] == j);
            }
        }
        a
    }
}

impl<const B: usize, const P: usize> Agent<B, P> for HeuristicAgent {
    open spec fn agent_name(&self) -> Seq<char> {
        self.spec_name()
    }

    fn name(&self) -> (n: &str) {
        self.name.as_str()
    }

    /// The legal action of the best greedy score (see `pick_action`).
    fn select_action(&mut self, state: &BlokusState<B, P>) -> (a: BlokusAction)
        ensures
            (state.spec_terminal() || state.passed@[state.current_player as int]) ==> a == BlokusAction::Pass,
            !(state.spec_terminal() || state.passed@[state.current_player as int]) ==> forall|b: BlokusAction|
                #[trigger] state.spec_legal(b) ==> greedy_score(*state, b, state.current_player) <= greedy_score(
                    *state,
                    a,
                    state.current_player,
                ),
            !(state.spec_terminal() || state.passed@[state.current_player as int]) ==> exists|k: int|
                0 <= k < state.legal_list().len() && state.legal_list()[k] == a && forall|j: int|
                    0 <= j < k ==> greedy_score(*state, #[trigger] state.legal_list()[j], state.current_player)
                        < greedy_score(*state, a, state.current_player),
    {
        self.pick_action(state)
    }
}

} // verus!
