//! The Blokus referee.
use crate::blokus::game::{BlokusAction, BlokusState};
use vstd::prelude::*;

verus! {

/// The Blokus referee for `P` players on a `B x B` board.
#[derive(Debug, Clone, Copy, Default, PartialEq, Eq)]
pub struct BlokusWorld<const B: usize, const P: usize>;

impl<const B: usize, const P: usize> BlokusWorld<B, P> {
    /// A referee.
    pub fn new() -> (w: Self) {
        BlokusWorld
    }

    /// The legal actions of the player to move in `ws` (see
    /// `BlokusState::legal_actions`).
    pub fn legal_actions(&self, ws: &BlokusState<B, P>, out: &mut Vec<BlokusAction>)
        requires
            BlokusState::<B, P>::dims_ok(),
            ws.wf(),
        ensures
            (ws.spec_terminal() || ws.passed@[ws.current_player as int]) ==> final(out)@.len() == 0,
            !(ws.spec_terminal() || ws.passed@[ws.current_player as int]) ==> forall|a: BlokusAction|
                final(out)@.contains(a) <==> #[trigger] ws.spec_legal(a),
            final(out)@.no_duplicates(),
            final(out)@ == ws.legal_list(),
    {
        ws.legal_actions(out);
    }

    /// Whether the game in `ws` is over.
    pub fn is_terminal(&self, ws: &BlokusState<B, P>) -> (t: bool)
        requires
            P <= 255,
        ensures
            t == ws.spec_terminal(),
    {
        ws.is_terminal()
    }
}

} // verus!
