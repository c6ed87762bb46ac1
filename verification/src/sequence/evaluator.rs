//! Leaf evaluators for Sequence search, and the counts behind the heuristic
//! one: how far each five-cell window has come for a team, and which jacks
//! the team holds.
use crate::sequence::board::{
    is_corner_index, is_one_eyed_jack, is_two_eyed_jack, spec_corner_index, spec_one_eyed,
    spec_two_eyed, Card,
};
use crate::sequence::game::{hands_view, SequenceState};
use vstd::prelude::*;

verus! {

/// Uniform priors and zero values.
#[derive(Debug, Clone, Copy, Default)]
pub struct UniformEvaluator;

/// Cell `i` counts for `team`: a corner, or one of its chips.
pub open spec fn counts_for(board: Seq<Option<u8>>, team: u8, i: int) -> bool {
    spec_corner_index(i) || board[i] == Some(team)
}

/// Cell `i` blocks `team`: another team's chip off the corners.
pub open spec fn blocks(board: Seq<Option<u8>>, team: u8, i: int) -> bool {
    !spec_corner_index(i) && board[i] is Some && board[i] != Some(team)
}

/// Cells among the first `k` of `cells` that count for `team`.
pub open spec fn own_count(board: Seq<Option<u8>>, team: u8, cells: Seq<int>, k: int) -> int
    decreases k,
{
    if k <= 0 {
        0
    } else {
        own_count(board, team, cells, k - 1) + if counts_for(board, team, cells[k - 1]) {
            1int
        } else {
            0int
        }
    }
}

/// Cells among the first `k` of `cells` that block `team`.
pub open spec fn block_count(board: Seq<Option<u8>>, team: u8, cells: Seq<int>, k: int) -> int
    decreases k,
{
    if k <= 0 {
        0
    } else {
        block_count(board, team, cells, k - 1) + if blocks(board, team, cells[k - 1]) {
            1int
        } else {
            0int
        }
    }
}

/// How far a window has come for `team`: the cells that count for it, or
/// nothing once another team blocks it.
pub open spec fn window_value(board: Seq<Option<u8>>, team: u8, cells: Seq<int>) -> int {
    if block_count(board, team, cells, 5) > 0 {
        0
    } else {
        own_count(board, team, cells, 5)
    }
}

/// The five cells from `(r, c)` in direction `(dr, dc)`.
pub open spec fn window_at(r: int, c: int, dr: int, dc: int) -> Seq<int> {
    seq![
        r * 10 + c,
        (r + dr) * 10 + c + dc,
        (r + 2 * dr) * 10 + c + 2 * dc,
        (r + 3 * dr) * 10 + c + 3 * dc,
        (r + 4 * dr) * 10 + c + 4 * dc,
    ]
}

/// Window `w` of the 192 on the board, in scanning order: the 60 rows
/// windows (row by row, left to right), the 60 column windows, the 36
/// windows down to the right, and the 36 down to the left.
pub open spec fn window(w: int) -> Seq<int> {
    if w < 60 {
        window_at(w / 6, w % 6, 0, 1)
    } else if w < 120 {
        window_at((w - 60) / 10, (w - 60) % 10, 1, 0)
    } else if w < 156 {
        window_at((w - 120) / 6, (w - 120) % 6, 1, 1)
    } else {
        window_at((w - 156) / 6, 4 + (w - 156) % 6, 1, -1)
    }
}

/// Scores one window of five cells for `team`.
fn evaluate_line(board: &[Option<u8>; 100], team: u8, indices: [usize; 5]) -> (v: u8)
    requires
        forall|k: int| 0 <= k < 5 ==> #[trigger] indices@[k] < 100,
    ensures
        v == window_value(board@, team, Seq::new(5, |k: int| indices@[k] as int)),
{
    let ghost cells = Seq::new(5, |k: int| indices@[k] as int);
    let mut team_count: u8 = 0;
    let mut opp_count: u8 = 0;
    let mut i: usize = 0;
    while i < 5
        invariant
            i <= 5,
            forall|k: int| 0 <= k < 5 ==> #[trigger] indices@[k] < 100,
            cells == Seq::new(5, |k: int| indices@[k] as int),
            team_count == own_count(board@, team, cells, i as int),
            opp_count == block_count(board@, team, cells, i as int),
            team_count <= i,
            opp_count <= i,
        decreases 5 - i,
    {
        let idx = indices[i];
        assert(cells[i as int] == idx);
        if is_corner_index(idx) {
            team_count += 1;
        } else {
            match board[idx] {
                Some(t) => {
                    if t == team {
                        team_count += 1;
                    } else {
                        opp_count += 1;
                    }
                },
                None => {},
            }
        }
        i += 1;
    }
    if opp_count > 0 {
        0
    } else {
        team_count
    }
}

/// Flat index of the `t`-th cell of the window from `(r, c)` in direction `(dr, dc)`.
fn window_cell(r: usize, c: usize, t: usize, dr: usize, dc: i8) -> (i: usize)
    requires
        t <= 4,
        dr <= 1,
        -1 <= dc <= 1,
        r + t * dr < 10,
        0 <= c + t * dc < 10,
    ensures
        i == (r + t * dr) * 10 + c + t * dc,
{
    let row = r + t * dr;
    let col: usize = if dc > 0 {
        assert(t * dc == t) by (nonlinear_arith)
            requires
                dc == 1,
        ;
        c + t
    } else if dc < 0 {
        assert(t * dc == -t) by (nonlinear_arith)
            requires
                dc == -1,
        ;
        c - t
    } else {
        assert(t * dc == 0) by (nonlinear_arith)
            requires
                dc == 0,
        ;
        c
    };
    row * 10 + col
}

/// Where window `w` starts and which way it runs.
pub open spec fn window_start(w: int) -> (int, int, int, int) {
    if w < 60 {
        (w / 6, w % 6, 0, 1)
    } else if w < 120 {
        ((w - 60) / 10, (w - 60) % 10, 1, 0)
    } else if w < 156 {
        ((w - 120) / 6, (w - 120) % 6, 1, 1)
    } else {
        ((w - 156) / 6, 4 + (w - 156) % 6, 1, -1)
    }
}

proof fn lemma_window_start(w: int)
    requires
        0 <= w < 192,
    ensures
        window(w) == window_at(window_start(w).0, window_start(w).1, window_start(w).2, window_start(w).3),
        0 <= window_start(w).0,
        window_start(w).0 + 4 * window_start(w).2 < 10,
        0 <= window_start(w).1 < 10,
        0 <= window_start(w).1 + 4 * window_start(w).3 < 10,
        0 <= window_start(w).1 + window_start(w).3 < 10,
        0 <= window_start(w).1 + 2 * window_start(w).3 < 10,
        0 <= window_start(w).1 + 3 * window_start(w).3 < 10,
        0 <= window_start(w).2 <= 1,
        -1 <= window_start(w).3 <= 1,
{
    if w < 60 {
        assert(0 <= w / 6 < 10 && 0 <= w % 6 < 6) by (nonlinear_arith)
            requires
                0 <= w < 60,
        ;
    } else if w < 120 {
        assert(0 <= (w - 60) / 10 < 6 && 0 <= (w - 60) % 10 < 10) by (nonlinear_arith)
            requires
                0 <= w - 60 < 60,
        ;
    } else if w < 156 {
        assert(0 <= (w - 120) / 6 < 6 && 0 <= (w - 120) % 6 < 6) by (nonlinear_arith)
            requires
                0 <= w - 120 < 36,
        ;
    } else {
        assert(0 <= (w - 156) / 6 < 6 && 0 <= (w - 156) % 6 < 6) by (nonlinear_arith)
            requires
                0 <= w - 156 < 36,
        ;
    }
}

/// How far each of the 192 five-cell windows has come for `team`, in
/// scanning order (see `window`): the cells that count for it (corners
/// count for everyone), or 0 once another team's chip blocks the window.
pub fn window_threats(board: &[Option<u8>; 100], team: u8) -> (v: Vec<u8>)
    ensures
        v@.len() == 192,
        forall|w: int| 0 <= w < 192 ==> #[trigger] v@[w] == window_value(board@, team, window(w)),
{
    let mut out: Vec<u8> = Vec::new();
    let mut w: usize = 0;
    while w < 192
        invariant
            w <= 192,
            out@.len() == w,
            forall|j: int| 0 <= j < w ==> #[trigger] out@[j] == window_value(board@, team, window(j)),
        decreases 192 - w,
    {
        let (r, c, dr, dc): (usize, usize, usize, i8) = if w < 60 {
            (w / 6, w % 6, 0, 1)
        } else if w < 120 {
            ((w - 60) / 10, (w - 60) % 10, 1, 0)
        } else if w < 156 {
            ((w - 120) / 6, (w - 120) % 6, 1, 1)
        } else {
            ((w - 156) / 6, 4 + (w - 156) % 6, 1, -1)
        };
        proof {
            lemma_window_start(w as int);
            assert(window_start(w as int) == (r as int, c as int, dr as int, dc as int));
        }
        let line = [
            window_cell(r, c, 0, dr, dc),
            window_cell(r, c, 1, dr, dc),
            window_cell(r, c, 2, dr, dc),
            window_cell(r, c, 3, dr, dc),
            window_cell(r, c, 4, dr, dc),
        ];
        let v = evaluate_line(board, team, line);
        assert(Seq::new(5, |t: int| line@[t] as int) =~= window(w as int));
        let ghost pre = out@;
        out.push(v);
        assert forall|j: int| 0 <= j < w + 1 implies #[trigger] out@[j] == window_value(board@, team, window(j)) by {
            if j < w {
                assert(out@[j] == pre[j]);
            }
        }
        w += 1;
    }
    out
}

/// The jacks held by `team`'s players, hand by hand in seat order: 2 for a
/// two-eyed jack, 1 for a one-eyed jack.
pub open spec fn jack_kinds(hands: Seq<Seq<Card>>, team_of: spec_fn(int) -> u8, team: u8, p: int) -> Seq<u8>
    decreases p,
{
    if p <= 0 {
        Seq::empty()
    } else {
        jack_kinds(hands, team_of, team, p - 1) + if team_of(p - 1) == team {
            hand_jacks(hands[p - 1], hands[p - 1].len() as int)
        } else {
            Seq::empty()
        }
    }
}

/// The jacks among the first `k` cards of `hand`, as in `jack_kinds`.
pub open spec fn hand_jacks(hand: Seq<Card>, k: int) -> Seq<u8>
    decreases k,
{
    if k <= 0 {
        Seq::empty()
    } else {
        hand_jacks(hand, k - 1) + if spec_two_eyed(hand[k - 1]) {
            seq![2u8]
        } else if spec_one_eyed(hand[k - 1]) {
            seq![1u8]
        } else {
            Seq::empty()
        }
    }
}

/// The jacks held by the players of `team`, in seat and hand order: 2 for a
/// two-eyed jack, 1 for a one-eyed jack.
pub fn team_jacks(s: &SequenceState, team: u8) -> (v: Vec<u8>)
    requires
        s.config.num_teams > 0,
    ensures
        v@ == jack_kinds(hands_view(s.hands@), |p: int| s.config.spec_team(p), team, s.hands@.len() as int),
{
    let ghost hv = hands_view(s.hands@);
    let ghost team_of = |p: int| s.config.spec_team(p);
    let mut out: Vec<u8> = Vec::new();
    let mut p: usize = 0;
    while p < s.hands.len()
        invariant
            s.config.num_teams > 0,
            p <= s.hands@.len(),
            hv == hands_view(s.hands@),
            team_of == (|q: int| s.config.spec_team(q)),
            out@ == jack_kinds(hv, team_of, team, p as int),
        decreases s.hands@.len() - p,
    {
        if s.config.player_team(p) == team {
            let hand = &s.hands[p];
            assert(hv[p as int] == hand@);
            let ghost before = out@;
            let mut i: usize = 0;
            while i < hand.len()
                invariant
                    i <= hand@.len(),
                    out@ == before + hand_jacks(hand@, i as int),
                decreases hand@.len() - i,
            {
                let c = hand[i];
                if is_two_eyed_jack(c) {
                    out.push(2);
                } else if is_one_eyed_jack(c) {
                    out.push(1);
                }
                i += 1;
            }
        }
        p += 1;
    }
    out
}


/// `(r, c)` touches the cell `(cr, cc)` (orthogonally or diagonally)
/// without being it.
pub open spec fn touches(r: int, c: int, cr: int, cc: int) -> bool {
    -1 <= r - cr <= 1 && -1 <= c - cc <= 1 && (r != cr || c != cc)
}

/// `(r, c)` touches one of the four corners.
pub open spec fn near_corner(r: int, c: int) -> bool {
    touches(r, c, 0, 0) || touches(r, c, 0, 9) || touches(r, c, 9, 0) || touches(r, c, 9, 9)
}

/// Whether `(r, c)` is next to one of the four corners.
pub fn is_corner_adjacent(r: u8, c: u8) -> (b: bool)
    requires
        r < 128,
        c < 128,
    ensures
        b == near_corner(r as int, c as int),
{
    let corners: [(i8, i8); 4] = [(0, 0), (0, 9), (9, 0), (9, 9)];
    let mut k: usize = 0;
    while k < 4
        invariant
            k <= 4,
            r < 128,
            c < 128,
            corners@ == seq![(0i8, 0i8), (0i8, 9i8), (9i8, 0i8), (9i8, 9i8)],
            forall|j: int| 0 <= j < k ==> !touches(r as int, c as int, (#[trigger] corners@[j]).0 as int, corners@[j].1 as int),
        decreases 4 - k,
    {
        let (cr, cc) = corners[k];
        let dr = if (r as i8) >= cr { (r as i8) - cr } else { cr - (r as i8) };
        let dc = if (c as i8) >= cc { (c as i8) - cc } else { cc - (c as i8) };
        if (dr <= 1 && dc <= 1) && (dr + dc > 0) {
            return true;
        }
        k += 1;
    }
    proof {
        assert(!touches(r as int, c as int, corners@[0].0 as int, corners@[0].1 as int));
        assert(!touches(r as int, c as int, corners@[1].0 as int, corners@[1].1 as int));
        assert(!touches(r as int, c as int, corners@[2].0 as int, corners@[2].1 as int));
        assert(!touches(r as int, c as int, corners@[3].0 as int, corners@[3].1 as int));
    }
    false
}

} // verus!
