//! The Connect 4 referee.
use crate::connect4::game::{Connect4State, Player};
use vstd::prelude::*;

verus! {

/// The Connect 4 referee for `R` rows and `C` columns.
#[derive(Debug, Clone, Copy, Default, PartialEq, Eq)]
pub struct Connect4World<const R: usize, const C: usize>;

/// What one referee step did.
#[derive(Debug, Clone, Copy, PartialEq, Eq)]
pub struct Connect4Step {
    /// The player whose checker made four in a row, if any.
    pub winner: Option<Player>,
    /// Whether the game is over.
    pub terminated: bool,
}

/// Two states with the same board have the same lines and the same full columns.
proof fn lemma_same_board<const R: usize, const C: usize>(
    a: Connect4State<R, C>,
    b: Connect4State<R, C>,
    r: int,
    c: int,
    p: Player,
)
    requires
        a.board == b.board,
    ensures
        a.win_through(r, c, p) == b.win_through(r, c, p),
        a.spec_board_full() == b.spec_board_full(),
{
    assert forall|d: int, k: int|
        #![trigger a.four(r, c, d, -k, p)]
        #![trigger b.four(r, c, d, -k, p)]
        a.four(r, c, d, -k, p) == b.four(r, c, d, -k, p) by {}
    assert forall|q: int|
        #![trigger a.spec_column_full(q)]
        #![trigger b.spec_column_full(q)]
        a.spec_column_full(q) == b.spec_column_full(q) by {}
}

impl<const R: usize, const C: usize> Connect4World<R, C> {
    /// A referee.
    pub fn new() -> (w: Self) {
        Connect4World
    }

    /// `after` and `step` are what a referee step makes of `before` when the
    /// player to move drops a checker into column `action`: the checker lands
    /// on the lowest empty cell; a line of four through it wins; otherwise a
    /// full board ends the game in a draw; otherwise the other player moves
    /// next.
    pub open spec fn refereed(
        before: Connect4State<R, C>,
        action: usize,
        after: Connect4State<R, C>,
        step: Connect4Step,
    ) -> bool {
        &&& forall|r: int, c: int|
            0 <= r < R && 0 <= c < C ==> #[trigger] after.cell(r, c) == if c == action && before.cell(r, c) is None
                && forall|q: int| r < q < R ==> #[trigger] before.cell(q, c) is Some {
                Some(before.current_player)
            } else {
                before.cell(r, c)
            }
        &&& step.winner == (if exists|r: int| 0 <= r < R && #[trigger] after.cell(r, action as int) != before.cell(
            r,
            action as int,
        ) && after.win_through(r, action as int, before.current_player) {
            Some(before.current_player)
        } else {
            None::<Player>
        })
        &&& step.terminated == (step.winner is Some || after.spec_board_full())
        &&& after.current_player == (if step.terminated {
            before.current_player
        } else {
            before.current_player.spec_other()
        })
    }

    /// Drops a checker of the player to move into column `action`: a line
    /// of four through it wins; otherwise a full board ends the game in a
    /// draw; otherwise the other player moves next.
    pub fn apply_action(&self, ws: &mut Connect4State<R, C>, action: usize) -> (step: Connect4Step)
        requires
            R >= 1,
            action < C,
            !old(ws).spec_column_full(action as int),
        ensures
            Self::refereed(*old(ws), action, *final(ws), step),
    {
        let p = ws.current_player;
        let ghost before = *ws;
        let row = match ws.drop_piece(action) {
            Ok(r) => r,
            Err(_) => {
                return Connect4Step { winner: None, terminated: false };
            },
        };
        proof {
            assert forall|r: int, c: int| 0 <= r < R && 0 <= c < C implies #[trigger] ws.cell(r, c) == if c == action
                && before.cell(r, c) is None && forall|q: int| r < q < R ==> #[trigger] before.cell(q, c) is Some {
                Some(before.current_player)
            } else {
                before.cell(r, c)
            } by {
                if c == action && before.cell(r, c) is None && forall|q: int| r < q < R ==> #[trigger] before.cell(
                    q,
                    c,
                ) is Some {
                    if r < row {
                        assert(before.cell(row as int, c) is None);
                    } else if r > row {
                        assert(before.cell(r, c) is Some);
                    }
                }
            }
            assert forall|r: int| 0 <= r < R && #[trigger] ws.cell(r, action as int) != before.cell(r, action as int)
                implies r == row by {}
        }
        let won = ws.check_win_at(row, action, p);
        if won {
            assert(ws.cell(row as int, action as int) != before.cell(row as int, action as int));
            return Connect4Step { winner: Some(p), terminated: true };
        }
        if ws.is_board_full() {
            return Connect4Step { winner: None, terminated: true };
        }
        let ghost mid = *ws;
        ws.current_player = p.other();
        proof {
            lemma_same_board(mid, *ws, row as int, action as int, p);
            assert(ws.cell(row as int, action as int) != before.cell(row as int, action as int));
            assert forall|r: int| 0 <= r < R && #[trigger] ws.cell(r, action as int) != before.cell(r, action as int)
                implies r == row by {
                assert(ws.cell(r, action as int) == mid.cell(r, action as int));
            }
            assert(!ws.win_through(row as int, action as int, p));
            assert forall|r: int, c: int| 0 <= r < R && 0 <= c < C implies #[trigger] ws.cell(r, c) == mid.cell(r, c) by {}
            assert(!exists|r: int|
                0 <= r < R && #[trigger] ws.cell(r, action as int) != before.cell(r, action as int) && ws.win_through(
                    r,
                    action as int,
                    before.current_player,
                ));
        }
        Connect4Step { winner: None, terminated: false }
    }

    /// The columns that are not full, in increasing order.
    pub fn legal_actions(&self, ws: &Connect4State<R, C>, out: &mut Vec<usize>)
        requires
            R >= 1,
        ensures
            forall|i: int| 0 <= i < final(out)@.len() ==> (#[trigger] final(out)@[i]) < C && !ws.spec_column_full(final(out)@[i] as int),
            forall|c: int| 0 <= c < C && !#[trigger] ws.spec_column_full(c) ==> final(out)@.contains(c as usize),
            forall|i: int, j: int| 0 <= i < j < final(out)@.len() ==> final(out)@[i] < final(out)@[j],
    {
        ws.legal_actions(out);
    }

    /// Whether the board is full or a player has four in a row.
    pub fn is_terminal(&self, ws: &Connect4State<R, C>) -> (t: bool)
        requires
            R >= 1,
        ensures
            t == (ws.spec_board_full() || ws.spec_has_won(Player::Red) || ws.spec_has_won(Player::Yellow)),
    {
        ws.is_board_full() || ws.has_won(Player::Red) || ws.has_won(Player::Yellow)
    }
}

} // verus!
