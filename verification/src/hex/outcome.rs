//! Why a full Hex board always has a winner. Frame the board with its edges
//! (Black's above and below, White's left and right) and walk from the
//! top-left corner along the border between black and white cells, keeping
//! black on one side. The walk never comes back to a place it has been, so
//! it leaves the frame at another corner; the black cells it passes then join
//! Black's edges, or the white cells join White's.
use crate::hex::connect::{
    adjacent, connected, law_won_iff_connected, lemma_connected_refl, lemma_connected_step, link, stone, tracks_all,
};
use crate::hex::game::{lemma_cell, on_first_edge, on_second_edge, spec_is_won, HexPlayer, HexState};
use vstd::prelude::*;
use vstd::set_lib::{lemma_int_range, lemma_len_subset, set_int_range};

verus! {

/// Direction `k` (0 to 5) of the hexagonal lattice, in turning order: each
/// direction is the sum of its two neighbours in the order.
pub open spec fn dir(k: int) -> (int, int) {
    if k == 0 {
        (-1, 0)
    } else if k == 1 {
        (-1, 1)
    } else if k == 2 {
        (0, 1)
    } else if k == 3 {
        (1, 0)
    } else if k == 4 {
        (1, -1)
    } else {
        (0, -1)
    }
}

/// The direction before `k` in turning order.
pub open spec fn turn_back(k: int) -> int {
    if k == 0 {
        5
    } else {
        k - 1
    }
}

/// The direction after `k` in turning order.
pub open spec fn turn_on(k: int) -> int {
    if k == 5 {
        0
    } else {
        k + 1
    }
}

/// The cell one step from `(r, c)` in direction `k`.
pub open spec fn toward(r: int, c: int, k: int) -> (int, int) {
    (r + dir(k).0, c + dir(k).1)
}

/// `(r, c)` lies on the board or on one of its four edges; the corner cells,
/// where two edges meet, are left out.
pub open spec fn framed(n: int, r: int, c: int) -> bool {
    &&& -1 <= r <= n
    &&& -1 <= c <= n
    &&& !((r == -1 || r == n) && (c == -1 || c == n))
}

/// The framed cell `(r, c)` is Black's: a black stone, or Black's edge.
pub open spec fn black_at(board: Seq<Option<HexPlayer>>, n: int, r: int, c: int) -> bool {
    if 0 <= r < n && 0 <= c < n {
        board[r * n + c] == Some(HexPlayer::Black)
    } else {
        r == -1 || r == n
    }
}

/// A place of the walk: a black cell `(s.0, s.1)` and the white cell next to
/// it in direction `s.2`.
pub open spec fn white_of(s: (int, int, int)) -> (int, int) {
    toward(s.0, s.1, s.2)
}

/// The cell the walk looks at next: next to both cells of `s`, ahead.
pub open spec fn ahead(s: (int, int, int)) -> (int, int) {
    toward(s.0, s.1, turn_back(s.2))
}

/// The other cell next to both cells of `s`, behind.
pub open spec fn behind(s: (int, int, int)) -> (int, int) {
    toward(s.0, s.1, turn_on(s.2))
}

/// `s` is a place on the border between black and white.
pub open spec fn on_border(board: Seq<Option<HexPlayer>>, n: int, s: (int, int, int)) -> bool {
    &&& 0 <= s.2 < 6
    &&& framed(n, s.0, s.1)
    &&& framed(n, white_of(s).0, white_of(s).1)
    &&& black_at(board, n, s.0, s.1)
    &&& !black_at(board, n, white_of(s).0, white_of(s).1)
}

/// One step along the border: the cell ahead replaces the black or the white
/// cell, whichever colour it has.
pub open spec fn step(board: Seq<Option<HexPlayer>>, n: int, s: (int, int, int)) -> (int, int, int) {
    let a = ahead(s);
    if black_at(board, n, a.0, a.1) {
        (a.0, a.1, turn_on(s.2))
    } else {
        (s.0, s.1, turn_back(s.2))
    }
}

/// The step that leads to `t`.
pub open spec fn step_back(board: Seq<Option<HexPlayer>>, n: int, t: (int, int, int)) -> (int, int, int) {
    let y = behind(t);
    if black_at(board, n, y.0, y.1) {
        (y.0, y.1, turn_back(t.2))
    } else {
        (t.0, t.1, turn_on(t.2))
    }
}

/// The walk from the top-left corner: Black's top edge cell `(-1, 0)` and
/// White's left edge cell `(0, -1)`.
pub open spec fn walk(board: Seq<Option<HexPlayer>>, n: int, i: nat) -> (int, int, int)
    decreases i,
{
    if i == 0 {
        (-1, 0, 4)
    } else {
        step(board, n, walk(board, n, (i - 1) as nat))
    }
}

/// The walk leaves the frame from `s`.
pub open spec fn leaves(n: int, s: (int, int, int)) -> bool {
    !framed(n, ahead(s).0, ahead(s).1)
}

/// Every cell of the board holds a stone.
pub open spec fn full(board: Seq<Option<HexPlayer>>, n: int) -> bool {
    &&& board.len() == n * n
    &&& forall|i: int| 0 <= i < n * n ==> (#[trigger] board[i]) is Some
}

/// Stepping back undoes a step.
proof fn lemma_step_back(board: Seq<Option<HexPlayer>>, n: int, s: (int, int, int))
    requires
        on_border(board, n, s),
    ensures
        step_back(board, n, step(board, n, s)) == s,
{
}

/// A step that stays in the frame stays on the border.
proof fn lemma_step_on_border(board: Seq<Option<HexPlayer>>, n: int, s: (int, int, int))
    requires
        on_border(board, n, s),
        !leaves(n, s),
    ensures
        on_border(board, n, step(board, n, s)),
{
}

/// The node of `p`'s graph for a framed black cell: the cell's index on the
/// board, `n * n` for Black's top edge, `n * n + 1` for its bottom edge.
pub open spec fn black_node(n: int, r: int, c: int) -> int {
    if r == -1 {
        n * n
    } else if r == n {
        n * n + 1
    } else {
        r * n + c
    }
}

/// The node for a framed white cell: the cell's index on the board, `n * n`
/// for White's left edge, `n * n + 1` for its right edge.
pub open spec fn white_node(n: int, r: int, c: int) -> int {
    if c == -1 {
        n * n
    } else if c == n {
        n * n + 1
    } else {
        r * n + c
    }
}

/// Moving between neighbouring black cells keeps them joined to Black's top edge.
proof fn lemma_black_move(board: Seq<Option<HexPlayer>>, n: int, r: int, c: int, k: int)
    requires
        n >= 1,
        full(board, n),
        0 <= k < 6,
        framed(n, r, c),
        framed(n, toward(r, c, k).0, toward(r, c, k).1),
        black_at(board, n, r, c),
        black_at(board, n, toward(r, c, k).0, toward(r, c, k).1),
        connected(board, n, HexPlayer::Black, n * n, black_node(n, r, c)),
    ensures
        connected(board, n, HexPlayer::Black, n * n, black_node(n, toward(r, c, k).0, toward(r, c, k).1)),
{
    let p = HexPlayer::Black;
    let (r2, c2) = toward(r, c, k);
    let u = black_node(n, r, c);
    let v = black_node(n, r2, c2);
    if 0 <= r < n && 0 <= c < n {
        lemma_cell(n, r, c);
        assert(stone(board, n, p, u));
        if 0 <= r2 < n && 0 <= c2 < n {
            lemma_cell(n, r2, c2);
            assert(adjacent(n, u, v));
            assert(link(board, n, p, u, v));
            lemma_connected_step(board, n, p, n * n, u, v);
        } else if r2 == -1 {
            lemma_connected_refl(board, n, p, n * n);
        } else {
            assert(r2 == n && r == n - 1);
            assert(on_second_edge(n, p, u));
            assert(link(board, n, p, u, v));
            lemma_connected_step(board, n, p, n * n, u, v);
        }
    } else if 0 <= r2 < n && 0 <= c2 < n {
        lemma_cell(n, r2, c2);
        assert(stone(board, n, p, v));
        if r == -1 {
            assert(r2 == 0);
            assert(on_first_edge(n, p, v));
        } else {
            assert(r == n && r2 == n - 1);
            assert(on_second_edge(n, p, v));
        }
        assert(link(board, n, p, u, v));
        lemma_connected_step(board, n, p, n * n, u, v);
    } else {
        assert(u == v);
    }
}

/// Moving between neighbouring white cells keeps them joined to White's left edge.
proof fn lemma_white_move(board: Seq<Option<HexPlayer>>, n: int, r: int, c: int, k: int)
    requires
        n >= 1,
        full(board, n),
        0 <= k < 6,
        framed(n, r, c),
        framed(n, toward(r, c, k).0, toward(r, c, k).1),
        !black_at(board, n, r, c),
        !black_at(board, n, toward(r, c, k).0, toward(r, c, k).1),
        connected(board, n, HexPlayer::White, n * n, white_node(n, r, c)),
    ensures
        connected(board, n, HexPlayer::White, n * n, white_node(n, toward(r, c, k).0, toward(r, c, k).1)),
{
    let p = HexPlayer::White;
    let (r2, c2) = toward(r, c, k);
    let u = white_node(n, r, c);
    let v = white_node(n, r2, c2);
    if 0 <= r < n && 0 <= c < n {
        lemma_cell(n, r, c);
        assert(board[u] is Some);
        assert(board[u] == Some(board[u]->0));
        assert(board[u]->0 != HexPlayer::Black);
        assert(stone(board, n, p, u));
        if 0 <= r2 < n && 0 <= c2 < n {
            lemma_cell(n, r2, c2);
            assert(board[v] is Some);
            assert(adjacent(n, u, v));
            assert(link(board, n, p, u, v));
            lemma_connected_step(board, n, p, n * n, u, v);
        } else if c2 == -1 {
            lemma_connected_refl(board, n, p, n * n);
        } else {
            assert(c2 == n && c == n - 1);
            assert(on_second_edge(n, p, u));
            assert(link(board, n, p, u, v));
            lemma_connected_step(board, n, p, n * n, u, v);
        }
    } else if 0 <= r2 < n && 0 <= c2 < n {
        lemma_cell(n, r2, c2);
        assert(board[v] is Some);
        assert(board[v] == Some(board[v]->0));
        assert(board[v]->0 != HexPlayer::Black);
        assert(stone(board, n, p, v));
        if c == -1 {
            assert(c2 == 0);
            assert(on_first_edge(n, p, v));
        } else {
            assert(c == n && c2 == n - 1);
            assert(on_second_edge(n, p, v));
        }
        assert(link(board, n, p, u, v));
        lemma_connected_step(board, n, p, n * n, u, v);
    } else {
        assert(u == v);
    }
}

/// Until it leaves the frame, the walk stays on the border, its black cell
/// is joined to Black's top edge and its white cell to White's left edge.
proof fn lemma_walk_border(board: Seq<Option<HexPlayer>>, n: int, i: nat)
    requires
        n >= 1,
        full(board, n),
        forall|t: nat| t < i ==> !leaves(n, #[trigger] walk(board, n, t)),
    ensures
        on_border(board, n, walk(board, n, i)),
        connected(board, n, HexPlayer::Black, n * n, black_node(n, walk(board, n, i).0, walk(board, n, i).1)),
        connected(
            board,
            n,
            HexPlayer::White,
            n * n,
            white_node(n, white_of(walk(board, n, i)).0, white_of(walk(board, n, i)).1),
        ),
    decreases i,
{
    if i == 0 {
        lemma_connected_refl(board, n, HexPlayer::Black, n * n);
        lemma_connected_refl(board, n, HexPlayer::White, n * n);
    } else {
        let j = (i - 1) as nat;
        lemma_walk_border(board, n, j);
        let s = walk(board, n, j);
        assert(!leaves(n, s));
        lemma_step_on_border(board, n, s);
        let k = s.2;
        let a = ahead(s);
        let w = white_of(s);
        if black_at(board, n, a.0, a.1) {
            lemma_black_move(board, n, s.0, s.1, turn_back(k));
            assert(white_of(walk(board, n, i)) == w);
        } else {
            let j4 = turn_on(turn_on(turn_on(turn_on(k))));
            assert(toward(w.0, w.1, j4) == a);
            lemma_white_move(board, n, w.0, w.1, j4);
        }
    }
}

/// Until it leaves the frame, the walk never comes back to a place.
proof fn lemma_walk_distinct(board: Seq<Option<HexPlayer>>, n: int, i: nat, j: nat)
    requires
        n >= 1,
        full(board, n),
        i < j,
        forall|t: nat| t < j ==> !leaves(n, #[trigger] walk(board, n, t)),
    ensures
        walk(board, n, i) != walk(board, n, j),
    decreases i,
{
    let jp = (j - 1) as nat;
    lemma_walk_border(board, n, jp);
    lemma_step_back(board, n, walk(board, n, jp));
    if i == 0 {
        assert(step_back(board, n, walk(board, n, 0)) == (-1int, -1int, 3int));
    } else {
        let ip = (i - 1) as nat;
        lemma_walk_border(board, n, ip);
        lemma_step_back(board, n, walk(board, n, ip));
        lemma_walk_distinct(board, n, ip, jp);
    }
}

/// A number for each place, below `6 * (n + 2) * (n + 2)`.
pub open spec fn code(n: int, s: (int, int, int)) -> int {
    ((s.0 + 1) * (n + 2) + (s.1 + 1)) * 6 + s.2
}

proof fn lemma_code(n: int, s: (int, int, int), t: (int, int, int))
    requires
        n >= 1,
        -1 <= s.0 <= n,
        -1 <= s.1 <= n,
        0 <= s.2 < 6,
        -1 <= t.0 <= n,
        -1 <= t.1 <= n,
        0 <= t.2 < 6,
    ensures
        0 <= code(n, s) < 6 * (n + 2) * (n + 2),
        code(n, s) == code(n, t) ==> s == t,
{
    let x = (s.0 + 1) * (n + 2) + (s.1 + 1);
    let y = (t.0 + 1) * (n + 2) + (t.1 + 1);
    assert(0 <= x < (n + 2) * (n + 2)) by (nonlinear_arith)
        requires
            x == (s.0 + 1) * (n + 2) + (s.1 + 1),
            0 <= s.0 + 1 <= n + 1,
            0 <= s.1 + 1 <= n + 1,
    ;
    assert(0 <= y < (n + 2) * (n + 2)) by (nonlinear_arith)
        requires
            y == (t.0 + 1) * (n + 2) + (t.1 + 1),
            0 <= t.0 + 1 <= n + 1,
            0 <= t.1 + 1 <= n + 1,
    ;
    assert(0 <= code(n, s) < 6 * (n + 2) * (n + 2)) by (nonlinear_arith)
        requires
            code(n, s) == x * 6 + s.2,
            0 <= x < (n + 2) * (n + 2),
            0 <= s.2 < 6,
    ;
    if code(n, s) == code(n, t) {
        vstd::arithmetic::div_mod::lemma_fundamental_div_mod_converse(code(n, s), 6, x, s.2);
        vstd::arithmetic::div_mod::lemma_fundamental_div_mod_converse(code(n, t), 6, y, t.2);
        vstd::arithmetic::div_mod::lemma_fundamental_div_mod_converse(x, n + 2, s.0 + 1, s.1 + 1);
        vstd::arithmetic::div_mod::lemma_fundamental_div_mod_converse(y, n + 2, t.0 + 1, t.1 + 1);
    }
}

/// A walk that has not left the frame after `m` steps has visited `m + 1`
/// different places, so `m` is below the number of places.
proof fn lemma_walk_length(board: Seq<Option<HexPlayer>>, n: int, m: nat)
    requires
        n >= 1,
        full(board, n),
        forall|t: nat| t <= m ==> !leaves(n, #[trigger] walk(board, n, t)),
    ensures
        m + 1 <= 6 * (n + 2) * (n + 2),
{
    let bound = 6 * (n + 2) * (n + 2);
    let codes = Seq::new((m + 1) as nat, |t: int| code(n, walk(board, n, t as nat)));
    assert forall|t: int| 0 <= t < codes.len() implies 0 <= #[trigger] codes[t] < bound by {
        lemma_walk_border(board, n, t as nat);
        let s = walk(board, n, t as nat);
        lemma_code(n, s, s);
    }
    assert(codes.no_duplicates()) by {
        assert forall|i: int, j: int| 0 <= i < codes.len() && 0 <= j < codes.len() && i != j implies codes[i]
            != codes[j] by {
            let (a, b) = if i < j {
                (i as nat, j as nat)
            } else {
                (j as nat, i as nat)
            };
            lemma_walk_distinct(board, n, a, b);
            lemma_walk_border(board, n, a);
            lemma_walk_border(board, n, b);
            lemma_code(n, walk(board, n, a), walk(board, n, b));
        }
    }
    codes.unique_seq_to_set();
    lemma_int_range(0, bound);
    assert(codes.to_set().subset_of(set_int_range(0, bound)));
    lemma_len_subset(codes.to_set(), set_int_range(0, bound));
}

/// The walk leaves the frame, and the first place it leaves from is found.
proof fn lemma_first_exit(board: Seq<Option<HexPlayer>>, n: int, m: nat) -> (e: nat)
    requires
        n >= 1,
        full(board, n),
        forall|t: nat| t < m ==> !leaves(n, #[trigger] walk(board, n, t)),
    ensures
        leaves(n, walk(board, n, e)),
        forall|t: nat| t < e ==> !leaves(n, #[trigger] walk(board, n, t)),
    decreases 6 * (n + 2) * (n + 2) - m,
{
    if leaves(n, walk(board, n, m)) {
        m
    } else {
        assert forall|t: nat| t <= m implies !leaves(n, #[trigger] walk(board, n, t)) by {
            if t < m {
            }
        }
        lemma_walk_length(board, n, m);
        lemma_first_exit(board, n, m + 1)
    }
}

/// Where the walk leaves the frame, one side has won: the frame is left only
/// at the top-right corner, with the white cell on White's right edge or in
/// the last column, or at the bottom-left corner, with the black cell on
/// Black's bottom edge or in the last row.
proof fn lemma_exit_wins(board: Seq<Option<HexPlayer>>, n: int, s: (int, int, int))
    requires
        n >= 1,
        full(board, n),
        on_border(board, n, s),
        leaves(n, s),
        connected(board, n, HexPlayer::Black, n * n, black_node(n, s.0, s.1)),
        connected(board, n, HexPlayer::White, n * n, white_node(n, white_of(s).0, white_of(s).1)),
    ensures
        connected(board, n, HexPlayer::Black, n * n, n * n + 1) || connected(
            board,
            n,
            HexPlayer::White,
            n * n,
            n * n + 1,
        ),
{
    let w = white_of(s);
    assert(s.0 == n || (s.0 == n - 1 && 0 <= s.1 < n) || w.1 == n || (w.1 == n - 1 && 0 <= w.0 < n));
    if s.0 == n {
    } else if s.0 == n - 1 && 0 <= s.1 < n {
        let u = s.0 * n + s.1;
        lemma_cell(n, s.0, s.1);
        assert(link(board, n, HexPlayer::Black, u, n * n + 1));
        lemma_connected_step(board, n, HexPlayer::Black, n * n, u, n * n + 1);
    } else if w.1 == n {
    } else {
        let u = w.0 * n + w.1;
        lemma_cell(n, w.0, w.1);
        assert(board[u] == Some(board[u]->0));
        assert(link(board, n, HexPlayer::White, u, n * n + 1));
        lemma_connected_step(board, n, HexPlayer::White, n * n, u, n * n + 1);
    }
}

/// On a full board one of the players joins its two edges: Hex has no draws.
pub proof fn law_full_board_has_winner(board: Seq<Option<HexPlayer>>, n: int)
    requires
        n >= 1,
        full(board, n),
    ensures
        connected(board, n, HexPlayer::Black, n * n, n * n + 1) || connected(
            board,
            n,
            HexPlayer::White,
            n * n,
            n * n + 1,
        ),
{
    let e = lemma_first_exit(board, n, 0);
    lemma_walk_border(board, n, e);
    lemma_exit_wins(board, n, walk(board, n, e));
}

/// A game whose board is full has been won by one of the players, on every
/// state whose forests describe its board.
pub proof fn law_no_draws<const N: usize>(st: HexState<N>)
    requires
        st.wf(),
        tracks_all(st),
        full(st.board@, N as int),
    ensures
        spec_is_won(st, HexPlayer::Black) || spec_is_won(st, HexPlayer::White),
{
    law_full_board_has_winner(st.board@, N as int);
    law_won_iff_connected(st, HexPlayer::Black);
    law_won_iff_connected(st, HexPlayer::White);
}

} // verus!
