//! Opponent models for Connect 4 planning.
use crate::connect4::game::{Connect4State, Player};
use crate::connect4::world::{Connect4Step, Connect4World};
use crate::random::random_index;
use vstd::prelude::*;

verus! {

/// An opponent that plays a random column that is not full.
#[derive(Debug, Clone, Copy, Default)]
pub struct RandomOpponent;

impl RandomOpponent {
    /// The random opponent.
    pub fn new() -> (o: Self) {
        RandomOpponent
    }

    /// A column that is not full, at random.
    pub fn select_action<const R: usize, const C: usize>(&self, s: &Connect4State<R, C>) -> (col: usize)
        requires
            R >= 1,
            !s.spec_board_full(),
        ensures
            col < C,
            !s.spec_column_full(col as int),
    {
        let mut legal: Vec<usize> = Vec::new();
        s.legal_actions(&mut legal);
        proof {
            let c = choose|c: int| 0 <= c < C && !#[trigger] s.spec_column_full(c);
            assert(legal@.contains(c as usize));
        }
        let i = random_index(legal.len());
        legal[i]
    }
}

/// An opponent that wins at once when it can, else blocks, else plays
/// nearest the centre.
#[derive(Debug, Clone, Copy, Default)]
pub struct TacticalOpponent;

/// `s2` is `s` with a checker of `p` dropped into column `col`, landing on
/// `row` (the lowest empty cell of the column).
pub open spec fn dropped<const R: usize, const C: usize>(
    s: Connect4State<R, C>,
    s2: Connect4State<R, C>,
    col: int,
    row: int,
    p: Player,
) -> bool {
    &&& 0 <= col < C
    &&& 0 <= row < R
    &&& s.cell(row, col) is None
    &&& forall|r: int| row < r < R ==> #[trigger] s.cell(r, col) is Some
    &&& forall|r: int, c: int|
        0 <= r < R && 0 <= c < C ==> #[trigger] s2.cell(r, c) == if r == row && c == col {
            Some(p)
        } else {
            s.cell(r, c)
        }
}

/// Dropping a checker of `p` into column `col` completes four in a line.
pub open spec fn wins_by<const R: usize, const C: usize>(s: Connect4State<R, C>, col: int, p: Player) -> bool {
    exists|s2: Connect4State<R, C>, row: int| #[trigger] dropped(s, s2, col, row, p) && s2.win_through(row, col, p)
}

/// Column `c` is on the board and not full.
pub open spec fn playable<const R: usize, const C: usize>(s: Connect4State<R, C>, c: int) -> bool {
    0 <= c < C && !s.spec_column_full(c)
}

/// Twice the distance from the middle of column `c` to the board's centre.
pub open spec fn centre_dist(c: int, cols: int) -> int {
    if 2 * c + 1 >= cols {
        2 * c + 1 - cols
    } else {
        cols - 2 * c - 1
    }
}

/// How far column `c` of `cols` is from the centre, in half columns: the
/// columns to its left less those to its right, in absolute value.
fn centre_offset(c: usize, cols: usize) -> (d: usize)
    requires
        c < cols,
    ensures
        d == centre_dist(c as int, cols as int),
{
    let left = c;
    let right = cols - 1 - c;
    if left >= right {
        left - right
    } else {
        right - left
    }
}

/// The drop into a column is determined: the same row, and the same
/// lines through it.
proof fn lemma_drop_unique<const R: usize, const C: usize>(
    s: Connect4State<R, C>,
    s2: Connect4State<R, C>,
    s3: Connect4State<R, C>,
    col: int,
    row: int,
    row3: int,
    p: Player,
)
    requires
        dropped(s, s2, col, row, p),
        dropped(s, s3, col, row3, p),
    ensures
        row == row3,
        s2.win_through(row, col, p) == s3.win_through(row, col, p),
{
    if row < row3 {
        assert(s.cell(row3, col) is Some);
    }
    if row3 < row {
        assert(s.cell(row, col) is Some);
    }
    assert forall|d: int, t: int| #[trigger] s2.on_line(row, col, d, t, p) == s3.on_line(row, col, d, t, p) by {
        let rc = crate::connect4::game::line_cell(d, row, col, t);
        if 0 <= rc.0 < R && 0 <= rc.1 < C {
            assert(s2.cell(rc.0, rc.1) == s3.cell(rc.0, rc.1));
        }
    }
    if s2.win_through(row, col, p) {
        let (d, k) = choose|d: int, k: int| 0 <= d < 4 && 0 <= k < 4 && #[trigger] s2.four(row, col, d, -k, p);
        assert(s3.four(row, col, d, -k, p));
    }
    if s3.win_through(row, col, p) {
        let (d, k) = choose|d: int, k: int| 0 <= d < 4 && 0 <= k < 4 && #[trigger] s3.four(row, col, d, -k, p);
        assert(s2.four(row, col, d, -k, p));
    }
}

/// Whether dropping a checker of `p` into column `col` completes four.
fn wins_by_drop<const R: usize, const C: usize>(s: &Connect4State<R, C>, col: usize, p: Player) -> (b: bool)
    requires
        R >= 1,
        col < C,
        !s.spec_column_full(col as int),
    ensures
        b == wins_by(*s, col as int, p),
{
    let mut trial = Connect4State { board: s.board, current_player: p };
    let ghost t0 = trial;
    assert(forall|r: int, c: int|
        #![trigger t0.cell(r, c)]
        #![trigger s.cell(r, c)]
        0 <= r < R && 0 <= c < C ==> t0.cell(r, c) == s.cell(r, c));
    assert(trial.spec_column_full(col as int) == s.spec_column_full(col as int));
    match trial.drop_piece(col) {
        Ok(row) => {
            let b = trial.check_win_at(row, col, p);
            proof {
                assert(dropped(*s, trial, col as int, row as int, p));
                if !b {
                    assert forall|s3: Connect4State<R, C>, row3: int|
                        #[trigger] dropped(*s, s3, col as int, row3, p) implies !s3.win_through(row3, col as int, p) by {
                        lemma_drop_unique(*s, trial, s3, col as int, row as int, row3, p);
                    }
                }
            }
            b
        },
        Err(_) => false,
    }
}

/// The first column of `legal` where `p` completes four, if any.
fn first_winning<const R: usize, const C: usize>(s: &Connect4State<R, C>, legal: &Vec<usize>, p: Player) -> (found: Option<usize>)
    requires
        R >= 1,
        forall|i: int| 0 <= i < legal@.len() ==> (#[trigger] legal@[i]) < C && !s.spec_column_full(legal@[i] as int),
    ensures
        match found {
            Some(col) => legal@.contains(col) && wins_by(*s, col as int, p) && forall|i: int|
                0 <= i < legal@.len() && legal@[i] != col && #[trigger] wins_by(*s, legal@[i] as int, p) ==> exists|j: int|
                    0 <= j < i && legal@[j] == col,
            None => forall|i: int| 0 <= i < legal@.len() ==> !#[trigger] wins_by(*s, legal@[i] as int, p),
        },
{
    let mut i: usize = 0;
    while i < legal.len()
        invariant
            R >= 1,
            i <= legal@.len(),
            forall|k: int| 0 <= k < legal@.len() ==> (#[trigger] legal@[k]) < C && !s.spec_column_full(legal@[k] as int),
            forall|k: int| 0 <= k < i ==> !#[trigger] wins_by(*s, legal@[k] as int, p),
        decreases legal@.len() - i,
    {
        let col = legal[i];
        if wins_by_drop(s, col, p) {
            proof {
                assert(legal@[i as int] == col);
                assert forall|k: int|
                    0 <= k < legal@.len() && legal@[k] != col && #[trigger] wins_by(*s, legal@[k] as int, p) implies exists|j: int|
                    0 <= j < k && legal@[j] == col by {
                    assert(k > i);
                    assert(legal@[i as int] == col);
                }
            }
            return Some(col);
        }
        i += 1;
    }
    None
}

impl TacticalOpponent {
    /// Plays a column that wins at once when there is one (the leftmost),
    /// else one that stops the opponent winning at once there (the
    /// leftmost), else the column nearest the centre (the leftmost of the
    /// nearest).
    pub fn select_action<const R: usize, const C: usize>(&self, s: &Connect4State<R, C>) -> (col: usize)
        requires
            R >= 1,
            !s.spec_board_full(),
        ensures
            col < C,
            !s.spec_column_full(col as int),
            ({
                let me = s.current_player;
                let opp = me.spec_other();
                let can_win = exists|c: int| #[trigger] playable(*s, c) && wins_by(*s, c, me);
                let must_block = exists|c: int| #[trigger] playable(*s, c) && wins_by(*s, c, opp);
                &&& can_win ==> wins_by(*s, col as int, me) && forall|c: int|
                    #[trigger] playable(*s, c) && c < col ==> !wins_by(*s, c, me)
                &&& !can_win && must_block ==> wins_by(*s, col as int, opp) && forall|c: int|
                    #[trigger] playable(*s, c) && c < col ==> !wins_by(*s, c, opp)
                &&& !can_win && !must_block ==> forall|c: int|
                    #[trigger] playable(*s, c) ==> centre_dist(col as int, C as int) <= centre_dist(c, C as int) && (c
                        < col ==> centre_dist(col as int, C as int) < centre_dist(c, C as int))
            }),
    {
        let mut legal: Vec<usize> = Vec::new();
        s.legal_actions(&mut legal);
        let me = s.current_player;
        let opp = me.other();
        proof {
            let c = choose|c: int| 0 <= c < C && !#[trigger] s.spec_column_full(c);
            assert(legal@.contains(c as usize));
        }
        if let Some(col) = first_winning(s, &legal, me) {
            proof {
                let k = choose|k: int| 0 <= k < legal@.len() && legal@[k] == col;
                assert(playable(*s, col as int));
                assert forall|c: int| #[trigger] playable(*s, c) && c < col implies !wins_by(*s, c, me) by {
                    assert(legal@.contains(c as usize));
                    let k = choose|k: int| 0 <= k < legal@.len() && legal@[k] == c as usize;
                    if wins_by(*s, c, me) {
                        let j = choose|j: int| 0 <= j < k && legal@[j] == col;
                    }
                }
            }
            return col;
        }
        proof {
            assert forall|c: int| #[trigger] playable(*s, c) implies !wins_by(*s, c, me) by {
                assert(legal@.contains(c as usize));
            }
        }
        if let Some(col) = first_winning(s, &legal, opp) {
            proof {
                let k = choose|k: int| 0 <= k < legal@.len() && legal@[k] == col;
                assert(playable(*s, col as int));
                assert forall|c: int| #[trigger] playable(*s, c) && c < col implies !wins_by(*s, c, opp) by {
                    assert(legal@.contains(c as usize));
                    let k = choose|k: int| 0 <= k < legal@.len() && legal@[k] == c as usize;
                    if wins_by(*s, c, opp) {
                        let j = choose|j: int| 0 <= j < k && legal@[j] == col;
                    }
                }
            }
            return col;
        }
        proof {
            assert forall|c: int| #[trigger] playable(*s, c) implies !wins_by(*s, c, opp) by {
                assert(legal@.contains(c as usize));
            }
        }
        let mut best = legal[0];
        let mut best_dist: usize = centre_offset(best, C);
        let mut i: usize = 1;
        while i < legal.len()
            invariant
                1 <= i <= legal@.len(),
                forall|k: int| 0 <= k < legal@.len() ==> (#[trigger] legal@[k]) < C,
                forall|a: int, b: int| 0 <= a < b < legal@.len() ==> legal@[a] < legal@[b],
                exists|k: int| 0 <= k < i && legal@[k] == best,
                best < C,
                best_dist == centre_dist(best as int, C as int),
                forall|k: int| 0 <= k < i ==> best_dist <= centre_dist(#[trigger] legal@[k] as int, C as int),
                forall|k: int| 0 <= k < i && legal@[k] < best ==> best_dist < centre_dist(#[trigger] legal@[k] as int, C as int),
            decreases legal@.len() - i,
        {
            let c = legal[i];
            let d: usize = centre_offset(c, C);
            if d < best_dist {
                best = c;
                best_dist = d;
            }
            i += 1;
        }
        proof {
            assert forall|c: int| #[trigger] playable(*s, c) implies centre_dist(best as int, C as int) <= centre_dist(c, C as int) && (c
                < best ==> centre_dist(best as int, C as int) < centre_dist(c, C as int)) by {
                assert(legal@.contains(c as usize));
                let k = choose|k: int| 0 <= k < legal@.len() && legal@[k] == c as usize;
            }
        }
        best
    }
}

/// How an opponent replies in planning: a column that is not full.
pub trait OpponentPolicy<const R: usize, const C: usize> {
    /// The opponent's column, where `s.current_player` is the opponent.
    fn select_action(&self, s: &Connect4State<R, C>) -> (col: usize)
        requires
            R >= 1,
            !s.spec_board_full(),
        ensures
            col < C,
            !s.spec_column_full(col as int),
    ;
}

impl<const R: usize, const C: usize> OpponentPolicy<R, C> for RandomOpponent {
    fn select_action(&self, s: &Connect4State<R, C>) -> (col: usize) {
        RandomOpponent::select_action(self, s)
    }
}

impl<const R: usize, const C: usize> OpponentPolicy<R, C> for TacticalOpponent {
    fn select_action(&self, s: &Connect4State<R, C>) -> (col: usize) {
        TacticalOpponent::select_action(self, s)
    }
}

/// Planning in rounds: a move of the primary player followed, unless it ends
/// the game, by the opponent policy's reply.
pub struct MacroConnect4Dynamics<P, const R: usize, const C: usize> {
    /// The referee.
    pub world: Connect4World<R, C>,
    /// How the opponent replies.
    pub opponent_policy: P,
    /// The player who plans.
    pub primary_player: Player,
}

impl<P: OpponentPolicy<R, C>, const R: usize, const C: usize> MacroConnect4Dynamics<P, R, C> {
    /// Rounds against `opponent_policy`, planned for `primary_player`.
    pub fn new(opponent_policy: P, primary_player: Player) -> (d: Self)
        ensures
            d.opponent_policy == opponent_policy,
            d.primary_player == primary_player,
    {
        MacroConnect4Dynamics { world: Connect4World::new(), opponent_policy, primary_player }
    }

    /// Plays `action` for the player to move; unless that ends the game, the
    /// opponent policy replies with a column that is not full. The result is
    /// the last referee step.
    pub fn step(&self, s: &mut Connect4State<R, C>, action: usize) -> (out: Connect4Step)
        requires
            R >= 1,
            action < C,
            !old(s).spec_column_full(action as int),
        ensures
            exists|mid: Connect4State<R, C>, first: Connect4Step|
                {
                    &&& Connect4World::refereed(*old(s), action, mid, first)
                    &&& first.terminated ==> *final(s) == mid && out == first
                    &&& !first.terminated ==> exists|reply: usize|
                        {
                            &&& reply < C
                            &&& !mid.spec_column_full(reply as int)
                            &&& Connect4World::refereed(mid, reply, *final(s), out)
                        }
                },
    {
        let ghost before = *s;
        let first = self.world.apply_action(s, action);
        let ghost mid = *s;
        if first.terminated {
            return first;
        }
        assert(!s.spec_board_full());
        let reply = self.opponent_policy.select_action(s);
        let out = self.world.apply_action(s, reply);
        assert(Connect4World::refereed(mid, reply, *s, out));
        out
    }
}

} // verus!
