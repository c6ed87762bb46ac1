//! Leaf evaluators for Hex search.
use crate::hex::connect::{connected, law_won_iff_connected, lemma_connected_grow, stone, tracks_all};
use crate::hex::game::{empty_cells, lemma_board_size, on_second_edge, spec_is_won, HexPlayer, HexState};
use crate::hex::outcome::law_full_board_has_winner;
use crate::hex::paths::{crossing, is_route, route_cost, shortest_route};
use crate::random::shuffle;
use rand::rngs::ThreadRng;
use vstd::prelude::*;

verus! {

/// Uniform priors and zero values.
#[derive(Debug, Clone, Copy, Default)]
pub struct UniformEvaluator<const N: usize>;

impl<const N: usize> UniformEvaluator<N> {
    /// The evaluator.
    pub fn new() -> (e: Self) {
        UniformEvaluator
    }
}

/// Positions judged by the fewest stones each player still needs.
#[derive(Debug, Clone, Copy, Default)]
pub struct ShortestPathHeuristicEvaluator<const N: usize>;

impl<const N: usize> ShortestPathHeuristicEvaluator<N> {
    /// The evaluator.
    pub fn new() -> (e: Self) {
        ShortestPathHeuristicEvaluator
    }

    /// The fewest stones Black must add to join top and bottom: no route from
    /// the top row to the bottom row costs less, and one costs exactly this
    /// (`u16::MAX` when White cuts every route).
    pub fn black_shortest_path(s: &HexState<N>) -> (d: u16)
        requires
            s.wf(),
        ensures
            forall|path: Seq<int>|
                #[trigger] is_route(s.board@, N as int, HexPlayer::Black, path) && on_second_edge(
                    N as int,
                    HexPlayer::Black,
                    path.last(),
                ) ==> d <= route_cost(s.board@, HexPlayer::Black, path),
            d == u16::MAX || crossing(s.board@, N as int, HexPlayer::Black, d as int),
    {
        shortest_route(s, HexPlayer::Black)
    }

    /// The fewest stones White must add to join left and right: no route from
    /// the left column to the right column costs less, and one costs exactly
    /// this (`u16::MAX` when Black cuts every route).
    pub fn white_shortest_path(s: &HexState<N>) -> (d: u16)
        requires
            s.wf(),
        ensures
            forall|path: Seq<int>|
                #[trigger] is_route(s.board@, N as int, HexPlayer::White, path) && on_second_edge(
                    N as int,
                    HexPlayer::White,
                    path.last(),
                ) ==> d <= route_cost(s.board@, HexPlayer::White, path),
            d == u16::MAX || crossing(s.board@, N as int, HexPlayer::White, d as int),
    {
        shortest_route(s, HexPlayer::White)
    }
}

/// Values estimated by filling the board at random.
#[derive(Debug, Clone, Copy)]
pub struct RolloutEvaluator<const N: usize> {
    /// Random fills per evaluation (at least one).
    pub num_rollouts: usize,
    /// Depth limit, kept for configuration.
    pub max_depth: usize,
}

impl<const N: usize> RolloutEvaluator<N> {
    /// An evaluator with at least one fill per evaluation.
    pub fn new(num_rollouts: usize, max_depth: usize) -> (e: Self)
        ensures
            e.num_rollouts == (if num_rollouts >= 1 { num_rollouts } else { 1 }),
            e.max_depth == max_depth,
    {
        let n = if num_rollouts >= 1 { num_rollouts } else { 1 };
        RolloutEvaluator { num_rollouts: n, max_depth }
    }
}

impl<const N: usize> Default for RolloutEvaluator<N> {
    fn default() -> (e: Self)
        ensures
            e.num_rollouts == 2,
            N * N <= usize::MAX ==> e.max_depth == N * N,
    {
        let depth = match N.checked_mul(N) {
            Some(m) => m,
            None => N.wrapping_mul(N),
        };
        Self::new(2, depth)
    }
}

/// One of the Hex evaluators.
#[derive(Debug, Clone)]
pub enum HexEvaluator<const N: usize> {
    /// Random fills.
    Rollout(RolloutEvaluator<N>),
    /// Shortest remaining paths.
    Heuristic(ShortestPathHeuristicEvaluator<N>),
    /// Uniform priors.
    Uniform(UniformEvaluator<N>),
}


/// The board after playing the cells of `order` in turn, `first` first and
/// then alternating; a cell already taken is passed over (the turn still
/// passes).
pub open spec fn fill(board: Seq<Option<HexPlayer>>, order: Seq<usize>, first: HexPlayer) -> Seq<Option<HexPlayer>>
    decreases order.len(),
{
    if order.len() == 0 {
        board
    } else {
        let prev = fill(board, order.drop_last(), first);
        let who = if (order.len() - 1) % 2 == 0 {
            first
        } else {
            first.spec_other()
        };
        let cell = order.last() as int;
        if prev[cell] is None {
            prev.update(cell, Some(who))
        } else {
            prev
        }
    }
}

/// Filling keeps every stone where it is.
proof fn lemma_fill_keeps(board: Seq<Option<HexPlayer>>, order: Seq<usize>, first: HexPlayer, n: int, a: int)
    requires
        board.len() == n * n,
        forall|i: int| 0 <= i < order.len() ==> #[trigger] order[i] < n * n,
        stone(board, n, HexPlayer::Black, a),
    ensures
        stone(fill(board, order, first), n, HexPlayer::Black, a),
        fill(board, order, first).len() == n * n,
    decreases order.len(),
{
    if order.len() > 0 {
        let q = order.drop_last();
        assert forall|i: int| 0 <= i < q.len() implies #[trigger] q[i] < n * n by {
            assert(q[i] == order[i]);
        }
        assert(order.last() == order[order.len() - 1]);
        lemma_fill_keeps(board, q, first, n, a);
    }
}

/// `order` lists cell `c`.
pub open spec fn lists(order: Seq<usize>, c: int) -> bool {
    exists|i: int| 0 <= i < order.len() && order[i] as int == c
}

/// Filling leaves none of the cells of `order` empty, nor any cell that was
/// taken.
proof fn lemma_fill_covers(board: Seq<Option<HexPlayer>>, order: Seq<usize>, first: HexPlayer, c: int)
    requires
        forall|i: int| 0 <= i < order.len() ==> #[trigger] order[i] < board.len(),
        0 <= c < board.len(),
    ensures
        fill(board, order, first).len() == board.len(),
        lists(order, c) ==> fill(board, order, first)[c] is Some,
        board[c] is Some ==> fill(board, order, first)[c] is Some,
    decreases order.len(),
{
    if order.len() > 0 {
        let q = order.drop_last();
        assert forall|i: int| 0 <= i < q.len() implies #[trigger] q[i] < board.len() by {
            assert(q[i] == order[i]);
        }
        assert(order.last() == order[order.len() - 1]);
        lemma_fill_covers(board, q, first, c);
        if lists(order, c) && order.last() as int != c {
            let i = choose|i: int| 0 <= i < order.len() && order[i] as int == c;
            assert(q[i] == order[i]);
            assert(lists(q, c));
        }
    }
}

/// Filling every empty cell decides the game: on the filled board one of the
/// players joins its two edges.
pub proof fn law_fill_has_winner(board: Seq<Option<HexPlayer>>, n: int, order: Seq<usize>, first: HexPlayer)
    requires
        n >= 1,
        board.len() == n * n,
        forall|i: int| 0 <= i < order.len() ==> #[trigger] order[i] < n * n,
        forall|c: int| 0 <= c < n * n && #[trigger] board[c] is None ==> lists(order, c),
    ensures
        connected(fill(board, order, first), n, HexPlayer::Black, n * n, n * n + 1) || connected(
            fill(board, order, first),
            n,
            HexPlayer::White,
            n * n,
            n * n + 1,
        ),
{
    let filled = fill(board, order, first);
    assert(n * n >= 1) by (nonlinear_arith)
        requires
            n >= 1,
    ;
    lemma_fill_covers(board, order, first, 0);
    assert forall|c: int| 0 <= c < n * n implies (#[trigger] filled[c]) is Some by {
        lemma_fill_covers(board, order, first, c);
    }
    law_full_board_has_winner(filled, n);
}

/// A copy of a position.
fn copy_state<const N: usize>(s: &HexState<N>) -> (c: HexState<N>)
    ensures
        c.board@ == s.board@,
        c.dsu_black@ == s.dsu_black@,
        c.dsu_white@ == s.dsu_white@,
        c.current_player == s.current_player,
        c.pie_rule == s.pie_rule,
        c.move_count == s.move_count,
{
    let c = HexState {
        board: s.board.clone(),
        current_player: s.current_player,
        dsu_black: s.dsu_black.clone(),
        dsu_white: s.dsu_white.clone(),
        pie_rule: s.pie_rule,
        move_count: s.move_count,
    };
    assert(c.board@ == s.board@ && c.dsu_black@ == s.dsu_black@ && c.dsu_white@ == s.dsu_white@);
    c
}

/// Plays the cells of `order` from `s`, the player to move first and then
/// alternating (passing over cells already taken), and tells whether Black
/// then joins top and bottom. On a position whose forests describe its
/// stones (as every position built by `new` and `play_move` on empty cells
/// does), that is whether a chain of Black stones joins the two edges on
/// the filled board.
pub fn rollout_black_wins<const N: usize>(s: &HexState<N>, order: &[usize]) -> (won: bool)
    requires
        s.wf(),
        forall|i: int| 0 <= i < order@.len() ==> #[trigger] order@[i] < N * N,
    ensures
        tracks_all(*s) ==> (won <==> connected(
            fill(s.board@, order@, s.current_player),
            N as int,
            HexPlayer::Black,
            N * N,
            N * N + 1,
        )),
{
    proof {
        lemma_board_size(N as int);
    }
    let first = s.current_player;
    let mut sim = copy_state(s);
    sim.move_count = 0;
    let mut curr = first;
    let mut i: usize = 0;
    while i < order.len()
        invariant
            sim.wf(),
            i <= order@.len(),
            sim.move_count <= i,
            forall|k: int| 0 <= k < order@.len() ==> #[trigger] order@[k] < N * N,
            sim.board@ == fill(s.board@, order@.take(i as int), first),
            curr == (if i % 2 == 0 { first } else { first.spec_other() }),
            tracks_all(*s) ==> tracks_all(sim),
        decreases order@.len() - i,
    {
        let cell = order[i];
        let ghost before = sim.board@;
        assert(order@.take(i + 1).drop_last() == order@.take(i as int));
        assert(order@.take(i + 1).last() == cell);
        if sim.board[cell].is_none() {
            sim.current_player = curr;
            sim.play_move(cell);
        }
        curr = curr.other();
        i += 1;
    }
    assert(order@.take(order@.len() as int) == order@);
    let won = sim.is_won(HexPlayer::Black);
    proof {
        if tracks_all(*s) {
            law_won_iff_connected(sim, HexPlayer::Black);
        }
    }
    won
}

/// The empty cells, in order.
fn empty_cell_list<const N: usize>(s: &HexState<N>) -> (v: Vec<usize>)
    requires
        s.wf(),
    ensures
        v@ == empty_cells(s.board@, N * N),
        forall|i: int| 0 <= i < v@.len() ==> #[trigger] v@[i] < N * N,
{
    proof {
        lemma_board_size(N as int);
    }
    let mut v: Vec<usize> = Vec::new();
    let mut idx: usize = 0;
    while idx < N * N
        invariant
            s.wf(),
            N * N <= 16384,
            idx <= N * N,
            v@ == empty_cells(s.board@, idx as int),
            forall|i: int| 0 <= i < v@.len() ==> #[trigger] v@[i] < N * N,
        decreases N * N - idx,
    {
        if s.board[idx].is_none() {
            v.push(idx);
        }
        idx += 1;
    }
    v
}

/// How many of the fills of `board` in the orders `orders` (each played from
/// `first`, alternating) end with a chain of Black stones joining top and
/// bottom.
pub open spec fn black_fill_wins(
    board: Seq<Option<HexPlayer>>,
    n: int,
    orders: Seq<Seq<usize>>,
    first: HexPlayer,
) -> nat
    decreases orders.len(),
{
    if orders.len() == 0 {
        0
    } else {
        black_fill_wins(board, n, orders.drop_last(), first) + if connected(
            fill(board, orders.last(), first),
            n,
            HexPlayer::Black,
            n * n,
            n * n + 1,
        ) {
            1nat
        } else {
            0nat
        }
    }
}

impl<const N: usize> RolloutEvaluator<N> {
    /// How many of `num_rollouts` random fills Black wins: each fill shuffles
    /// the empty cells and plays them alternately from the player to move.
    /// Whatever the shuffles give, the count is at most `num_rollouts`; and
    /// when Black has already joined its edges (on a position whose forests
    /// describe its stones) every fill is a Black win. Whatever the shuffles
    /// give, each fill plays the empty cells in some order, and the count is
    /// how many of those fills Black wins.
    pub fn black_rollout_wins(&self, s: &HexState<N>, rng: &mut ThreadRng) -> (wins: usize)
        requires
            s.wf(),
        ensures
            wins <= self.num_rollouts,
            tracks_all(*s) && spec_is_won(*s, HexPlayer::Black) ==> wins == self.num_rollouts,
            exists|orders: Seq<Seq<usize>>|
                {
                    &&& orders.len() == self.num_rollouts
                    &&& forall|k: int|
                        0 <= k < orders.len() ==> (#[trigger] orders[k]).to_multiset() == empty_cells(
                            s.board@,
                            N * N,
                        ).to_multiset()
                    &&& tracks_all(*s) ==> wins == black_fill_wins(
                        s.board@,
                        N as int,
                        orders,
                        s.current_player,
                    )
                },
    {
        let mut cells = empty_cell_list(s);
        let mut wins: usize = 0;
        let mut k: usize = 0;
        let ghost mut orders: Seq<Seq<usize>> = Seq::empty();
        proof {
            if tracks_all(*s) {
                law_won_iff_connected(*s, HexPlayer::Black);
            }
        }
        while k < self.num_rollouts
            invariant
                s.wf(),
                k <= self.num_rollouts,
                wins <= k,
                forall|i: int| 0 <= i < cells@.len() ==> #[trigger] cells@[i] < N * N,
                tracks_all(*s) && spec_is_won(*s, HexPlayer::Black) ==> wins == k && connected(
                    s.board@,
                    N as int,
                    HexPlayer::Black,
                    N * N,
                    N * N + 1,
                ),
                cells@.to_multiset() == empty_cells(s.board@, N * N).to_multiset(),
                orders.len() == k,
                forall|j: int|
                    0 <= j < orders.len() ==> (#[trigger] orders[j]).to_multiset() == empty_cells(
                        s.board@,
                        N * N,
                    ).to_multiset(),
                tracks_all(*s) ==> wins == black_fill_wins(s.board@, N as int, orders, s.current_player),
            decreases self.num_rollouts - k,
        {
            let ghost before = cells@;
            shuffle(&mut cells, rng);
            proof {
                assert forall|i: int| 0 <= i < cells@.len() implies #[trigger] cells@[i] < N * N by {
                    let x = cells@[i];
                    cells@.to_multiset_ensures();
                    before.to_multiset_ensures();
                    assert(cells@.contains(x));
                    assert(cells@.to_multiset().count(x) > 0);
                    assert(before.to_multiset().count(x) > 0);
                    assert(before.contains(x));
                }
            }
            let won = rollout_black_wins(s, cells.as_slice());
            proof {
                if tracks_all(*s) && spec_is_won(*s, HexPlayer::Black) {
                    let n = N as int;
                    let filled = fill(s.board@, cells@, s.current_player);
                    assert forall|a: int| #[trigger] stone(s.board@, n, HexPlayer::Black, a) implies stone(
                        filled,
                        n,
                        HexPlayer::Black,
                        a,
                    ) by {
                        lemma_fill_keeps(s.board@, cells@, s.current_player, n, a);
                    }
                    lemma_connected_grow(s.board@, filled, n, HexPlayer::Black, n * n, n * n + 1);
                }
            }
            proof {
                let old_orders = orders;
                orders = orders.push(cells@);
                assert(orders.drop_last() == old_orders);
                assert(orders.last() == cells@);
            }
            if won {
                wins += 1;
            }
            k += 1;
        }
        wins
    }
}

} // verus!
