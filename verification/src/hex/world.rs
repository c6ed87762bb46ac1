//! The Hex referee: turn order, legality and game end around `HexState`.
use crate::hex::game::{legal_moves, spec_is_won, swap_available, first_stone, HexPlayer, HexState};
use vstd::prelude::*;

verus! {

/// The Hex referee for an `N`-by-`N` board.
#[derive(Debug, Clone, Copy, PartialEq, Eq)]
pub struct HexWorld<const N: usize> {
    /// Whether games start with the swap rule on.
    pub pie_rule: bool,
}

/// What one referee step did.
#[derive(Debug, Clone, Copy, PartialEq, Eq)]
pub struct HexStep {
    /// The player whose move joined their edges, if any.
    pub winner: Option<HexPlayer>,
    /// Whether the game is over.
    pub terminated: bool,
}

/// Whether every cell holds a stone.
pub open spec fn board_full<const N: usize>(st: HexState<N>) -> bool {
    forall|i: int| 0 <= i < N * N ==> (#[trigger] st.board@[i] is Some)
}

/// The outcome after `p` has placed a stone, giving `st`: `p` wins if the
/// stone joined `p`'s edges; else a full board ends the game with no winner;
/// else play goes on.
pub open spec fn step_result<const N: usize>(st: HexState<N>, p: HexPlayer) -> HexStep {
    if spec_is_won(st, p) {
        HexStep { winner: Some(p), terminated: true }
    } else if board_full(st) {
        HexStep { winner: None, terminated: true }
    } else {
        HexStep { winner: None, terminated: false }
    }
}

impl<const N: usize> HexWorld<N> {
    /// A referee with the swap rule off.
    pub fn new() -> (w: Self)
        ensures
            !w.pie_rule,
    {
        HexWorld { pie_rule: false }
    }

    /// A referee with the swap rule set as given.
    pub fn with_pie_rule(pie_rule: bool) -> (w: Self)
        ensures
            w.pie_rule == pie_rule,
    {
        HexWorld { pie_rule }
    }

    /// The board dimension.
    pub fn size(&self) -> (n: usize)
        ensures
            n == N,
    {
        N
    }

    /// The starting state of a game under this referee.
    pub fn initial(&self) -> (st: HexState<N>)
        requires
            1 <= N <= 128,
        ensures
            st.wf(),
            st.pie_rule == self.pie_rule,
            st.move_count == 0,
            st.current_player == HexPlayer::Black,
            forall|i: int| 0 <= i < N * N ==> (#[trigger] st.board@[i] is None),
    {
        HexState::with_pie_rule(self.pie_rule)
    }

    /// The legal moves of `ws`, written into `out`.
    pub fn legal_actions(&self, ws: &HexState<N>, out: &mut Vec<usize>)
        requires
            ws.wf(),
        ensures
            final(out)@ == legal_moves(*ws),
    {
        ws.legal_actions(out);
    }

    /// Whether the game in `ws` is over.
    pub fn is_terminal(&self, ws: &HexState<N>) -> (t: bool)
        requires
            ws.wf(),
        ensures
            t == (spec_is_won(*ws, HexPlayer::Black) || spec_is_won(*ws, HexPlayer::White) || board_full(
                *ws,
            )),
    {
        ws.is_terminal()
    }

    /// Plays `action` for the player to move and passes the turn: the swap
    /// move never ends the game; a stone that joins its player's edges wins;
    /// a full board with no winner ends the game; otherwise the other player
    /// moves next.
    pub fn apply_action(&self, ws: &mut HexState<N>, action: usize) -> (step: HexStep)
        requires
            old(ws).wf(),
            old(ws).move_count < usize::MAX,
            action <= N * N,
            action == N * N ==> swap_available(*old(ws)) && first_stone(
                old(ws).board@,
                HexPlayer::Black,
                0,
            ) < N * N,
            action < N * N ==> old(ws).board@[action as int] is None,
        ensures
            final(ws).wf(),
            action == N * N ==> (step == (HexStep { winner: None, terminated: false })
                && final(ws).current_player == HexPlayer::Black),
            action < N * N ==> final(ws).board@ == old(ws).board@.update(
                action as int,
                Some(old(ws).current_player),
            ),
            action < N * N ==> step == step_result(*final(ws), old(ws).current_player),
            action < N * N ==> final(ws).current_player == (if step.terminated {
                old(ws).current_player
            } else {
                old(ws).current_player.spec_other()
            }),
    {
        if action == N * N {
            ws.play_move(action);
            return HexStep { winner: None, terminated: false };
        }
        let player = ws.current_player;
        let won = ws.play_move(action);
        if won {
            return HexStep { winner: Some(player), terminated: true };
        }
        let mut i: usize = 0;
        let mut full = true;
        while i < N * N
            invariant
                ws.wf(),
                i <= N * N,
                full == (forall|j: int| 0 <= j < i ==> (#[trigger] ws.board@[j] is Some)),
            decreases N * N - i,
        {
            if ws.board[i].is_none() {
                full = false;
            }
            i = i + 1;
        }
        if full {
            HexStep { winner: None, terminated: true }
        } else {
            ws.current_player = player.other();
            HexStep { winner: None, terminated: false }
        }
    }
}

} // verus!
