//! Leaf evaluators for Blokus search, and the integer heuristic behind the
//! greedy playouts: how good a placement looks by its size and the corners
//! it leaves open.
use crate::blokus::game::{covered, piece_in_mask, rc_less, BlokusAction, BlokusState};
use crate::blokus::pieces::{piece_orientations, piece_size, spec_piece_size};
use crate::random::random_index;
use vstd::prelude::*;

verus! {

/// Uniform priors over the legal moves and zero values.
#[derive(Debug, Clone, Copy, Default)]
pub struct UniformEvaluator;

/// Priors that favour large pieces, and values from placed squares and open
/// corners.
#[derive(Debug, Clone, Copy, Default)]
pub struct AreaHeuristicEvaluator;

/// The free corners of player `p` on `st`: empty cells touching `p` only
/// at a corner.
pub open spec fn corner_set<const B: usize, const P: usize>(st: BlokusState<B, P>, p: u8) -> Set<(u8, u8)> {
    Set::new(|rc: (u8, u8)| st.free_corner(rc.0 as int, rc.1 as int, p))
}

/// Cell `(r, c)` after `apply_action(a)` on `st`: a placement the rules
/// accept covers its squares with the mover's colour; anything else leaves
/// the board as it is.
pub open spec fn cell_after<const B: usize, const P: usize>(st: BlokusState<B, P>, a: BlokusAction, r: int, c: int) -> u8 {
    match a {
        BlokusAction::Place { piece_id, orientation, row, col } => if !st.rejects(a) && covered(
            piece_orientations(piece_id as int)[orientation as int],
            row as int,
            col as int,
            r,
            c,
        ) {
            st.current_player as u8
        } else {
            st.cell(r, c)
        },
        BlokusAction::Pass => st.cell(r, c),
    }
}

/// `next` has the board that `a` leaves on `st`.
pub open spec fn board_after<const B: usize, const P: usize>(
    st: BlokusState<B, P>,
    a: BlokusAction,
    next: BlokusState<B, P>,
) -> bool {
    forall|r: int, c: int| 0 <= r < B && 0 <= c < B ==> #[trigger] next.cell(r, c) == cell_after(st, a, r, c)
}

/// The greedy value of move `a` for `player` on `st`: a pass is worth -1000;
/// a placement ten per square of the piece plus two per free corner that
/// `player` has on the board it leaves.
pub open spec fn greedy_score<const B: usize, const P: usize>(st: BlokusState<B, P>, a: BlokusAction, player: u8) -> int {
    match a {
        BlokusAction::Pass => -1000,
        BlokusAction::Place { piece_id, .. } => 10 * spec_piece_size(piece_id as int) + 2 * corner_set(
            choose|next: BlokusState<B, P>| board_after(st, a, next),
            player,
        ).len(),
    }
}

/// Free corners depend on the board alone.
proof fn lemma_corner_set_by_board<const B: usize, const P: usize>(
    x: BlokusState<B, P>,
    y: BlokusState<B, P>,
    p: u8,
)
    requires
        forall|r: int, c: int| 0 <= r < B && 0 <= c < B ==> #[trigger] x.cell(r, c) == y.cell(r, c),
    ensures
        corner_set(x, p) == corner_set(y, p),
{
    assert forall|rc: (u8, u8)| corner_set(x, p).contains(rc) <==> corner_set(y, p).contains(rc) by {
        let r = rc.0 as int;
        let c = rc.1 as int;
        assert(x.owns(r - 1, c, p) == y.owns(r - 1, c, p));
        assert(x.owns(r + 1, c, p) == y.owns(r + 1, c, p));
        assert(x.owns(r, c - 1, p) == y.owns(r, c - 1, p));
        assert(x.owns(r, c + 1, p) == y.owns(r, c + 1, p));
        assert(x.owns(r - 1, c - 1, p) == y.owns(r - 1, c - 1, p));
        assert(x.owns(r - 1, c + 1, p) == y.owns(r - 1, c + 1, p));
        assert(x.owns(r + 1, c - 1, p) == y.owns(r + 1, c - 1, p));
        assert(x.owns(r + 1, c + 1, p) == y.owns(r + 1, c + 1, p));
    }
    assert(corner_set(x, p) =~= corner_set(y, p));
}

/// The row-major rank of a cell on a `b`-wide board.
pub open spec fn rank(rc: (u8, u8), b: int) -> int {
    rc.0 * b + rc.1
}

/// Cells on a `b`-by-`b` board in strictly increasing row-major order are
/// at most `b * b`.
proof fn lemma_sorted_cells_bound(out: Seq<(u8, u8)>, b: int)
    requires
        forall|i: int| 0 <= i < out.len() ==> (#[trigger] out[i]).0 < b && out[i].1 < b,
        forall|i: int, j: int| 0 <= i < j < out.len() ==> rc_less(out[i], out[j]),
    ensures
        out.len() <= b * b,
{
    assert forall|i: int| 0 <= i < out.len() implies rank(#[trigger] out[i], b) >= i by {
        lemma_rank_grows(out, b, i);
    }
    assert(b * b >= 0) by (nonlinear_arith);
    if out.len() > 0 {
        let last = out[out.len() - 1];
        assert(rank(last, b) < b * b) by (nonlinear_arith)
            requires
                last.0 < b,
                last.1 < b,
                0 <= last.0,
                0 <= last.1,
        ;
        assert(rank(last, b) >= out.len() - 1);
    }
}

proof fn lemma_rank_grows(out: Seq<(u8, u8)>, b: int, i: int)
    requires
        forall|k: int| 0 <= k < out.len() ==> (#[trigger] out[k]).0 < b && out[k].1 < b,
        forall|x: int, y: int| 0 <= x < y < out.len() ==> rc_less(out[x], out[y]),
        0 <= i < out.len(),
    ensures
        rank(out[i], b) >= i,
    decreases i,
{
    if i > 0 {
        lemma_rank_grows(out, b, i - 1);
        let a = out[i - 1];
        let c = out[i];
        assert(rc_less(a, c));
        assert(a.1 < b && c.1 < b);
        assert(rank(a, b) < rank(c, b)) by (nonlinear_arith)
            requires
                a.0 < c.0 || (a.0 == c.0 && a.1 < c.1),
                a.1 < b,
                0 <= a.1,
                0 <= c.1,
                0 <= a.0,
        ;
    }
}

impl<const B: usize, const P: usize> BlokusState<B, P> {
    /// A copy of the position.
    fn copy_state(&self) -> (c: Self)
        ensures
            c == *self,
    {
        BlokusState {
            board: self.board,
            remaining_pieces: self.remaining_pieces,
            last_piece: self.last_piece,
            passed: self.passed,
            current_player: self.current_player,
            consecutive_passes: self.consecutive_passes,
            move_count: self.move_count,
        }
    }

    /// How many free corners `player` has.
    pub fn corner_count(&self, player: usize) -> (n: usize)
        requires
            B <= 255,
            player < 256,
        ensures
            n == corner_set(*self, player as u8).len(),
            n <= B * B,
    {
        let mut out: Vec<(u8, u8)> = Vec::new();
        self.find_valid_corners(player, &mut out);
        proof {
            lemma_sorted_cells_bound(out@, B as int);
            assert(out@.no_duplicates()) by {
                assert forall|i: int, j: int| 0 <= i < out@.len() && 0 <= j < out@.len() && i != j implies out@[i]
                    != out@[j] by {
                    if i < j {
                        assert(rc_less(out@[i], out@[j]));
                    } else {
                        assert(rc_less(out@[j], out@[i]));
                    }
                }
            }
            out@.unique_seq_to_set();
            assert(out@.to_set() =~= corner_set(*self, player as u8)) by {
                assert forall|rc: (u8, u8)| out@.to_set().contains(rc) <==> corner_set(*self, player as u8).contains(rc) by {
                    if out@.contains(rc) {
                        let i = choose|i: int| 0 <= i < out@.len() && out@[i] == rc;
                        assert(out@[i].0 < B && out@[i].1 < B);
                        assert(out@.contains((rc.0 as int as u8, rc.1 as int as u8)));
                    }
                    if self.free_corner(rc.0 as int, rc.1 as int, player as u8) {
                        assert(out@.contains((rc.0 as int as u8, rc.1 as int as u8)));
                    }
                }
            }
        }
        out.len()
    }

    /// The greedy value of `action` for `player`: ten per square of the piece
    /// placed plus two per free corner `player` has afterwards; a pass is
    /// worth -1000.
    pub fn move_score(&self, action: &BlokusAction, player: usize) -> (score: i32)
        requires
            Self::dims_ok(),
            self.wf(),
            self.move_count < 65535,
            player < P,
            action matches BlokusAction::Place { piece_id, .. } ==> piece_id < 21,
        ensures
            score == greedy_score(*self, *action, player as u8),
    {
        match *action {
            BlokusAction::Pass => -1000,
            BlokusAction::Place { piece_id, .. } => {
                let mut next = self.copy_state();
                let _ = next.apply_action(action);
                let corners = next.corner_count(player);
                proof {
                    assert(B * B <= 900) by (nonlinear_arith)
                        requires
                            B <= 30,
                    ;
                }
                proof {
                    assert(board_after(*self, *action, next));
                    let other = choose|n: Self| board_after(*self, *action, n);
                    lemma_corner_set_by_board(next, other, player as u8);
                }
                let size = piece_size(piece_id) as i32;
                10 * size + 2 * (corners as i32)
            },
        }
    }
}

/// Move `a` is legal in `s`, which is not over, and leads to `t`.
pub open spec fn legal_step<const B: usize, const P: usize>(
    s: BlokusState<B, P>,
    a: BlokusAction,
    t: BlokusState<B, P>,
) -> bool {
    &&& !s.spec_terminal()
    &&& s.spec_legal(a)
    &&& BlokusState::stepped(s, a, t)
}

/// `states` and `moves` record play from `states[0]`: each move is a legal
/// step from the state before it to the state after it.
pub open spec fn is_playout<const B: usize, const P: usize>(
    states: Seq<BlokusState<B, P>>,
    moves: Seq<BlokusAction>,
) -> bool {
    &&& states.len() == moves.len() + 1
    &&& forall|k: int| 0 <= k < moves.len() ==> legal_step(states[k], #[trigger] moves[k], states[k + 1])
}

/// Move `a` names one of the pieces, if it places one.
pub open spec fn names_piece(a: BlokusAction) -> bool {
    match a {
        BlokusAction::Place { piece_id, .. } => piece_id < 21,
        BlokusAction::Pass => true,
    }
}

/// Every placement in `actions` names one of the pieces.
pub open spec fn known_pieces(actions: Seq<BlokusAction>) -> bool {
    forall|i: int| 0 <= i < actions.len() ==> names_piece(#[trigger] actions[i])
}

/// `a` is `actions[picks[k]]` for the first `k` whose move has the highest
/// `greedy_score` for `player` among the sampled moves.
pub open spec fn first_best<const B: usize, const P: usize>(
    st: BlokusState<B, P>,
    actions: Seq<BlokusAction>,
    picks: Seq<usize>,
    player: u8,
    a: BlokusAction,
) -> bool {
    exists|k: int|
        #![trigger picks[k]]
        0 <= k < picks.len() && a == actions[picks[k] as int] && (forall|j: int|
            0 <= j < picks.len() ==> greedy_score(st, #[trigger] actions[picks[j] as int], player) <= greedy_score(
                st,
                a,
                player,
            )) && (forall|j: int|
            0 <= j < k ==> greedy_score(st, #[trigger] actions[picks[j] as int], player) < greedy_score(
                st,
                a,
                player,
            ))
}

/// How many values a playout step draws from `n` listed moves: one when it
/// explores or has a single move, else six, or `n` when there are fewer.
pub open spec fn draw_count(n: int, explore: bool) -> int {
    if explore || n <= 1 {
        1
    } else if n < 6 {
        n
    } else {
        6
    }
}

/// The move a playout step plays on `st` among `actions`, given the values
/// `draws` it drew: `actions[draws[0]]` when it explores or there is a single
/// move, else the first best of the sampled moves for the player to move.
pub open spec fn step_choice<const B: usize, const P: usize>(
    st: BlokusState<B, P>,
    actions: Seq<BlokusAction>,
    explore: bool,
    draws: Seq<usize>,
    a: BlokusAction,
) -> bool {
    if explore || actions.len() <= 1 {
        a == actions[draws[0] as int]
    } else {
        first_best(st, actions, draws, st.current_player, a)
    }
}

/// `a` is what a playout step on `st` can play among `actions`: its choice
/// for some `draw_count` values drawn below `actions.len()`.
pub open spec fn step_pick<const B: usize, const P: usize>(
    st: BlokusState<B, P>,
    actions: Seq<BlokusAction>,
    explore: bool,
    a: BlokusAction,
) -> bool {
    exists|draws: Seq<usize>|
        draws.len() == draw_count(actions.len() as int, explore) && (forall|i: int|
            0 <= i < draws.len() ==> #[trigger] draws[i] < actions.len()) && #[trigger] step_choice(
            st,
            actions,
            explore,
            draws,
            a,
        )
}

/// Each move of the playout is listed by `legal_list` in the state it is
/// played from, and is that step's choice for some values it drew.
pub open spec fn follows_policy<const B: usize, const P: usize>(
    states: Seq<BlokusState<B, P>>,
    moves: Seq<BlokusAction>,
    explore: Seq<bool>,
) -> bool {
    forall|k: int|
        0 <= k < moves.len() ==> {
            &&& states[k].legal_list().contains(#[trigger] moves[k])
            &&& step_pick(states[k], states[k].legal_list(), explore[k], moves[k])
        }
}

/// `count` numbers below `n`, drawn at random.
fn draw_indices(n: usize, count: usize) -> (draws: Vec<usize>)
    requires
        n > 0,
    ensures
        draws.len() == count,
        forall|i: int| 0 <= i < draws.len() ==> #[trigger] draws[i] < n,
{
    let mut draws: Vec<usize> = Vec::new();
    while draws.len() < count
        invariant
            n > 0,
            draws.len() <= count,
            forall|i: int| 0 <= i < draws.len() ==> #[trigger] draws[i] < n,
        decreases count - draws.len(),
    {
        draws.push(random_index(n));
    }
    draws
}

impl<const B: usize, const P: usize> BlokusState<B, P> {
    /// The best of the sampled moves `actions[picks[0]]`, `actions[picks[1]]`,
    /// ... by `greedy_score` for `player`, the earliest of them on a tie;
    /// `actions[0]` when nothing was sampled.
    pub fn best_of_sample(&self, actions: &[BlokusAction], picks: &[usize], player: usize) -> (a: BlokusAction)
        requires
            Self::dims_ok(),
            self.wf(),
            self.move_count < 65535,
            player < P,
            actions.len() > 0,
            known_pieces(actions@),
            forall|i: int| 0 <= i < picks.len() ==> #[trigger] picks[i] < actions.len(),
        ensures
            picks.len() == 0 ==> a == actions[0],
            picks.len() > 0 ==> exists|k: int|
                #![trigger picks[k]]
                0 <= k < picks.len() && a == actions[picks[k] as int] && (forall|j: int|
                    0 <= j < picks.len() ==> greedy_score(*self, #[trigger] actions[picks[j] as int], player as u8)
                        <= greedy_score(*self, a, player as u8)) && (forall|j: int|
                    0 <= j < k ==> greedy_score(*self, #[trigger] actions[picks[j] as int], player as u8)
                        < greedy_score(*self, a, player as u8)),
    {
        let mut best_score: i32 = i32::MIN;
        let mut best = actions[0];
        let ghost mut bk: int = -1;
        let mut i: usize = 0;
        while i < picks.len()
            invariant
                Self::dims_ok(),
                self.wf(),
                self.move_count < 65535,
                player < P,
                actions.len() > 0,
                known_pieces(actions@),
                forall|t: int| 0 <= t < picks.len() ==> #[trigger] picks[t] < actions.len(),
                i <= picks.len(),
                i == 0 ==> best == actions[0] && bk == -1 && best_score == i32::MIN,
                i > 0 ==> 0 <= bk < i && best == actions[picks[bk] as int] && best_score == greedy_score(
                    *self,
                    best,
                    player as u8,
                ),
                forall|j: int|
                    0 <= j < i ==> greedy_score(*self, #[trigger] actions[picks[j] as int], player as u8)
                        <= best_score,
                forall|j: int|
                    0 <= j < bk ==> greedy_score(*self, #[trigger] actions[picks[j] as int], player as u8)
                        < best_score,
            decreases picks.len() - i,
        {
            let cand = actions[picks[i]];
            assert(actions@[picks[i as int] as int] == cand);
            let sc = self.move_score(&cand, player);
            assert(sc > i32::MIN) by {
                if let BlokusAction::Place { piece_id, .. } = cand {
                    assert(spec_piece_size(piece_id as int) >= 1);
                }
            }
            if sc > best_score {
                best_score = sc;
                best = cand;
                proof {
                    bk = i as int;
                }
            }
            i += 1;
        }
        proof {
            if picks.len() > 0 {
                assert(picks[bk] < actions.len());
            }
        }
        best
    }

    /// The move a playout step plays among `actions`, given the values
    /// `draws` it drew below `actions.len()`: `actions[draws[0]]` when it
    /// explores or there is a single move, else the first best of the sampled
    /// moves `draws` for the player to move (see `best_of_sample`).
    pub fn playout_move(&self, actions: &[BlokusAction], explore: bool, draws: &[usize]) -> (a: BlokusAction)
        requires
            Self::dims_ok(),
            self.wf(),
            self.move_count < 65535,
            actions.len() > 0,
            known_pieces(actions@),
            draws.len() > 0,
            forall|i: int| 0 <= i < draws.len() ==> #[trigger] draws[i] < actions.len(),
        ensures
            step_choice(*self, actions@, explore, draws@, a),
    {
        if explore || actions.len() <= 1 {
            actions[draws[0]]
        } else {
            let a = self.best_of_sample(actions, draws, self.current_player as usize);
            proof {
                assert(first_best(*self, actions@, draws@, self.current_player, a));
            }
            a
        }
    }
}

impl<const B: usize, const P: usize> BlokusState<B, P> {
    /// Plays on from this position for at most `max_depth` moves and returns
    /// where play stopped. Move `d` is `playout_move` on the listed moves
    /// with `explore[d]` and values drawn at random: one when it explores or
    /// there is a single move (a move uniformly at random), else six, or all
    /// of the moves' number when fewer (a greedy pick).
    /// Play stops early when the game is over, when the player to move has
    /// no move, or when the move counter is full.
    pub fn heuristic_playout(&self, max_depth: usize, explore: &[bool]) -> (end: Self)
        requires
            Self::dims_ok(),
            self.wf(),
            explore.len() >= max_depth,
        ensures
            end.wf(),
            exists|states: Seq<Self>, moves: Seq<BlokusAction>|
                {
                    &&& is_playout(states, moves)
                    &&& states[0] == *self
                    &&& states.last() == end
                    &&& moves.len() <= max_depth
                    &&& moves.len() < max_depth ==> end.spec_terminal() || end.passed@[end.current_player as int]
                        || end.move_count >= 65535
                    &&& follows_policy(states, moves, explore@)
                },
    {
        let mut current = self.copy_state();
        let mut actions: Vec<BlokusAction> = Vec::new();
        let mut depth: usize = 0;
        let ghost mut states: Seq<Self> = seq![*self];
        let ghost mut moves: Seq<BlokusAction> = Seq::empty();
        while depth < max_depth && !current.is_terminal() && current.move_count < 65535
            invariant
                Self::dims_ok(),
                current.wf(),
                explore.len() >= max_depth,
                depth <= max_depth,
                moves.len() == depth,
                is_playout(states, moves),
                states[0] == *self,
                states.last() == current,
                follows_policy(states, moves, explore@),
            ensures
                depth == max_depth || current.spec_terminal() || current.passed@[current.current_player as int]
                    || current.move_count >= 65535,
            decreases max_depth - depth,
        {
            current.legal_actions(&mut actions);
            let n = actions.len();
            if n == 0 {
                proof {
                    if !current.passed@[current.current_player as int] {
                        let pl = current.current_player as int;
                        if current.spec_has_placement(pl) {
                            let (p, o, r, c) = choose|p: u8, o: u8, r: u8, c: u8| #[trigger] current.placement_ok(
                                pl,
                                p,
                                o,
                                r,
                                c,
                            );
                            assert(current.spec_legal(
                                BlokusAction::Place { piece_id: p, orientation: o, row: r, col: c },
                            ));
                        } else {
                            assert(current.spec_legal(BlokusAction::Pass));
                        }
                    }
                }
                break;
            }
            proof {
                assert forall|i: int| 0 <= i < actions@.len() implies names_piece(#[trigger] actions@[i]) by {
                    assert(actions@.contains(actions@[i]));
                    assert(current.spec_legal(actions@[i]));
                }
            }
            let count: usize = if explore[depth] || n <= 1 {
                1
            } else if n < 6 {
                n
            } else {
                6
            };
            let draws = draw_indices(n, count);
            let action = current.playout_move(actions.as_slice(), explore[depth], draws.as_slice());
            proof {
                if explore@[depth as int] || n <= 1 {
                    assert(actions@[draws@[0] as int] == action);
                } else {
                    let k = choose|k: int|
                        #![trigger draws@[k]]
                        0 <= k < draws@.len() && action == actions@[draws@[k] as int] && (forall|j: int|
                            0 <= j < draws@.len() ==> greedy_score(
                                current,
                                #[trigger] actions@[draws@[j] as int],
                                current.current_player,
                            ) <= greedy_score(current, action, current.current_player)) && (forall|j: int|
                            0 <= j < k ==> greedy_score(current, #[trigger] actions@[draws@[j] as int], current.current_player)
                                < greedy_score(current, action, current.current_player));
                    assert(actions@[draws@[k] as int] == action);
                }
                assert(draws@.len() == draw_count(n as int, explore@[depth as int]));
                assert(step_pick(current, actions@, explore@[depth as int], action));
            }
            assert(actions@.contains(action));
            let ghost before = current;
            proof {
                assert(before.spec_legal(action));
                before.law_legal_actions_accepted(action);
            }
            let res = current.apply_action(&action);
            assert(res is Ok);
            proof {
                let old_states = states;
                let old_moves = moves;
                states = states.push(current);
                moves = moves.push(action);
                assert forall|k: int| 0 <= k < moves.len() implies legal_step(
                    states[k],
                    #[trigger] moves[k],
                    states[k + 1],
                ) by {
                    if k < old_moves.len() {
                        assert(old_moves[k] == moves[k]);
                        assert(old_states[k] == states[k] && old_states[k + 1] == states[k + 1]);
                    } else {
                        assert(k == old_moves.len());
                        assert(states[k] == before && moves[k] == action && states[k + 1] == current);
                    }
                }
                assert forall|k: int| 0 <= k < moves.len() implies {
                    &&& states[k].legal_list().contains(#[trigger] moves[k])
                    &&& step_pick(states[k], states[k].legal_list(), explore@[k], moves[k])
                } by {
                    if k < old_moves.len() {
                        assert(old_moves[k] == moves[k]);
                        assert(old_states[k] == states[k]);
                    } else {
                        assert(states[k] == before && moves[k] == action);
                    }
                }
            }
            depth += 1;
        }
        assert(is_playout(states, moves) && states.last() == current);
        current
    }
}

} // verus!
