//! Shortest routes between a player's edges: the fewest stones a player
//! still has to place to join its two edges, found by a 0-1 breadth-first
//! search over the board.
use crate::hex::connect::{adjacent, lemma_neighbor_list, nb_index};
use crate::hex::game::{
    col_of, lemma_board_size, lemma_cell, lemma_cell_of, neighbor_cells, on_first_edge, on_second_edge, row_of,
    HexPlayer, HexState,
};
use std::collections::VecDeque;
use vstd::prelude::*;

verus! {

/// Cell `a` does not hold a stone of `p`'s opponent.
pub open spec fn passable(board: Seq<Option<HexPlayer>>, p: HexPlayer, a: int) -> bool {
    board[a] != Some(p.spec_other())
}

/// Stones `p` must add to hold cell `a`: none on its own stone, one on an
/// empty cell.
pub open spec fn stone_cost(board: Seq<Option<HexPlayer>>, p: HexPlayer, a: int) -> int {
    if board[a] == Some(p) {
        0
    } else {
        1
    }
}

/// A route of `p`: a walk through neighbouring cells free of the opponent's
/// stones, starting on `p`'s first edge.
pub open spec fn is_route(board: Seq<Option<HexPlayer>>, n: int, p: HexPlayer, path: Seq<int>) -> bool {
    &&& path.len() >= 1
    &&& on_first_edge(n, p, path[0])
    &&& forall|i: int| 0 <= i < path.len() ==> 0 <= #[trigger] path[i] < n * n && passable(board, p, path[i])
    &&& forall|i: int| 0 <= i < path.len() - 1 ==> #[trigger] adjacent(n, path[i], path[i + 1])
}

/// Stones `p` must add to hold every cell of `path`.
pub open spec fn route_cost(board: Seq<Option<HexPlayer>>, p: HexPlayer, path: Seq<int>) -> int
    decreases path.len(),
{
    if path.len() == 0 {
        0
    } else {
        route_cost(board, p, path.drop_last()) + stone_cost(board, p, path.last())
    }
}

/// Some route of `p` ends at `v` and costs `d`.
pub open spec fn reached(board: Seq<Option<HexPlayer>>, n: int, p: HexPlayer, v: int, d: int) -> bool {
    exists|path: Seq<int>| #[trigger] is_route(board, n, p, path) && path.last() == v && route_cost(board, p, path) == d
}

/// Some route of `p` ends on its second edge and costs `d`.
pub open spec fn crossing(board: Seq<Option<HexPlayer>>, n: int, p: HexPlayer, d: int) -> bool {
    exists|path: Seq<int>|
        #[trigger] is_route(board, n, p, path) && on_second_edge(n, p, path.last()) && route_cost(board, p, path)
            == d
}

/// The `j`-th listed neighbour of cell `u`.
pub open spec fn nb(n: int, u: int, j: int) -> int {
    nb_index(n, neighbor_cells(n, row_of(n, u), col_of(n, u))[j])
}

/// Every passable neighbour of `u` is at most one step's cost further than `u`.
pub open spec fn relaxed(board: Seq<Option<HexPlayer>>, n: int, p: HexPlayer, dist: Seq<u16>, u: int) -> bool {
    forall|j: int|
        0 <= j < neighbor_cells(n, row_of(n, u), col_of(n, u)).len() && passable(board, p, #[trigger] nb(n, u, j))
            ==> dist[nb(n, u, j)] <= dist[u] + stone_cost(board, p, nb(n, u, j))
}

/// Route costs never go down as a route grows.
pub proof fn lemma_cost_nonneg(board: Seq<Option<HexPlayer>>, p: HexPlayer, path: Seq<int>)
    ensures
        route_cost(board, p, path) >= 0,
    decreases path.len(),
{
    if path.len() > 0 {
        lemma_cost_nonneg(board, p, path.drop_last());
    }
}

/// Once every finite distance is relaxed and every first-edge cell is at
/// most its own cost, each cell of a route is at most the cost of the route
/// up to it.
pub proof fn lemma_route_bound(
    board: Seq<Option<HexPlayer>>,
    n: int,
    p: HexPlayer,
    dist: Seq<u16>,
    path: Seq<int>,
    k: int,
)
    requires
        n > 0,
        dist.len() == n * n,
        forall|s: int|
            0 <= s < n * n && on_first_edge(n, p, s) && passable(board, p, s) ==> #[trigger] dist[s] <= stone_cost(
                board,
                p,
                s,
            ),
        forall|u: int| 0 <= u < n * n && dist[u] < u16::MAX ==> #[trigger] relaxed(board, n, p, dist, u),
        is_route(board, n, p, path),
        0 <= k < path.len(),
    ensures
        dist[path[k]] <= route_cost(board, p, path.take(k + 1)),
    decreases k,
{
    let pre = path.take(k + 1);
    assert(pre.drop_last() == path.take(k));
    assert(pre.last() == path[k]);
    assert(0 <= path[k] < n * n && passable(board, p, path[k]));
    if k == 0 {
        assert(route_cost(board, p, path.take(0)) == 0);
    } else {
        lemma_route_bound(board, n, p, dist, path, k - 1);
        let u = path[k - 1];
        let v = path[k];
        assert(adjacent(n, u, v));
        assert(0 <= u < n * n);
        lemma_neighbor_list(n, u, v);
        let j = choose|j: int|
            0 <= j < neighbor_cells(n, row_of(n, u), col_of(n, u)).len() && #[trigger] nb_index(
                n,
                neighbor_cells(n, row_of(n, u), col_of(n, u))[j],
            ) == v;
        assert(nb(n, u, j) == v);
        if dist[u] < u16::MAX {
            assert(relaxed(board, n, p, dist, u));
        } else {
            lemma_cost_nonneg(board, p, path.take(k));
        }
    }
}


/// The `i`-th cell of `p`'s first edge.
pub open spec fn first_cell(n: int, p: HexPlayer, i: int) -> int {
    if p == HexPlayer::Black {
        i
    } else {
        i * n
    }
}

/// The `i`-th cell of `p`'s second edge.
pub open spec fn last_cell(n: int, p: HexPlayer, i: int) -> int {
    if p == HexPlayer::Black {
        (n - 1) * n + i
    } else {
        i * n + (n - 1)
    }
}

/// The edge cells are listed by `first_cell` and `last_cell`.
proof fn lemma_edge_cells(n: int, p: HexPlayer)
    requires
        n > 0,
    ensures
        forall|i: int|
            0 <= i < n ==> 0 <= #[trigger] first_cell(n, p, i) < n * n && on_first_edge(n, p, first_cell(n, p, i)),
        forall|i: int|
            0 <= i < n ==> 0 <= #[trigger] last_cell(n, p, i) < n * n && on_second_edge(n, p, last_cell(n, p, i)),
        forall|s: int|
            0 <= s < n * n && #[trigger] on_second_edge(n, p, s) ==> s == last_cell(
                n,
                p,
                if p == HexPlayer::Black {
                    col_of(n, s)
                } else {
                    row_of(n, s)
                },
            ),
{
    assert forall|i: int| 0 <= i < n implies 0 <= #[trigger] first_cell(n, p, i) < n * n && on_first_edge(
        n,
        p,
        first_cell(n, p, i),
    ) by {
        if p == HexPlayer::Black {
            lemma_cell(n, 0, i);
        } else {
            lemma_cell(n, i, 0);
        }
    }
    assert forall|i: int| 0 <= i < n implies 0 <= #[trigger] last_cell(n, p, i) < n * n && on_second_edge(
        n,
        p,
        last_cell(n, p, i),
    ) by {
        if p == HexPlayer::Black {
            lemma_cell(n, n - 1, i);
        } else {
            lemma_cell(n, i, n - 1);
        }
    }
    assert forall|s: int| 0 <= s < n * n && #[trigger] on_second_edge(n, p, s) implies s == last_cell(
        n,
        p,
        if p == HexPlayer::Black {
            col_of(n, s)
        } else {
            row_of(n, s)
        },
    ) by {
        lemma_cell_of(n, s);
    }
}

/// The first-edge cells reached by the `i`-th seed are exactly the first `k`.
proof fn lemma_first_edge_seed(n: int, p: HexPlayer, s: int)
    requires
        n > 0,
        0 <= s < n * n,
        on_first_edge(n, p, s),
    ensures
        s == first_cell(n, p, if p == HexPlayer::Black { s } else { row_of(n, s) }),
        0 <= (if p == HexPlayer::Black { s } else { row_of(n, s) }) < n,
{
    lemma_cell_of(n, s);
}

/// Total of a distance table.
pub open spec fn dist_sum(s: Seq<u16>) -> nat
    decreases s.len(),
{
    if s.len() == 0 {
        0
    } else {
        dist_sum(s.drop_last()) + s.last() as nat
    }
}

/// Lowering one entry lowers the total by as much.
proof fn lemma_sum_update(s: Seq<u16>, i: int, v: u16)
    requires
        0 <= i < s.len(),
    ensures
        dist_sum(s.update(i, v)) + s[i] == dist_sum(s) + v,
    decreases s.len(),
{
    let t = s.update(i, v);
    if i < s.len() - 1 {
        lemma_sum_update(s.drop_last(), i, v);
        assert(t.drop_last() == s.drop_last().update(i, v));
    } else {
        assert(t.drop_last() == s.drop_last());
    }
}

/// A one-cell route.
proof fn lemma_seed_route(board: Seq<Option<HexPlayer>>, n: int, p: HexPlayer, s: int)
    requires
        0 <= s < n * n,
        on_first_edge(n, p, s),
        passable(board, p, s),
    ensures
        reached(board, n, p, s, stone_cost(board, p, s)),
{
    let path = seq![s];
    assert(path.drop_last() == Seq::<int>::empty());
    assert(route_cost(board, p, Seq::<int>::empty()) == 0);
    assert(path.last() == s);
    assert(route_cost(board, p, path) == stone_cost(board, p, s));
    assert(is_route(board, n, p, path));
}

/// A route to `u` grows by one neighbour `v`.
proof fn lemma_extend_route(board: Seq<Option<HexPlayer>>, n: int, p: HexPlayer, u: int, v: int, d: int)
    requires
        n > 0,
        0 <= u < n * n,
        0 <= v < n * n,
        adjacent(n, u, v),
        passable(board, p, v),
        reached(board, n, p, u, d),
    ensures
        reached(board, n, p, v, d + stone_cost(board, p, v)),
{
    let path = choose|path: Seq<int>| #[trigger] is_route(board, n, p, path) && path.last() == u && route_cost(
        board,
        p,
        path,
    ) == d;
    let path2 = path.push(v);
    assert(path2.drop_last() == path);
    assert(path2[path.len() - 1] == u);
    assert(is_route(board, n, p, path2));
}

/// Lowering the distance of `v` (and queueing it) keeps relaxed every cell
/// other than `u` that is out of the queue.
proof fn lemma_relax_others(
    board: Seq<Option<HexPlayer>>,
    n: int,
    p: HexPlayer,
    dd: Seq<u16>,
    qq: Seq<usize>,
    nd: Seq<u16>,
    nq: Seq<usize>,
    u: int,
    v: int,
)
    requires
        0 <= v < n * n,
        dd.len() == n * n,
        nd.len() == n * n,
        nd[v] < dd[v],
        forall|x: int| 0 <= x < n * n && x != v ==> nd[x] == dd[x],
        forall|x: usize| #[trigger] qq.contains(x) ==> nq.contains(x),
        nq.contains(v as usize),
        forall|w: int|
            0 <= w < n * n && w != u && dd[w] < u16::MAX && !qq.contains(w as usize) ==> #[trigger] relaxed(
                board,
                n,
                p,
                dd,
                w,
            ),
    ensures
        forall|w: int|
            0 <= w < n * n && w != u && nd[w] < u16::MAX && !nq.contains(w as usize) ==> #[trigger] relaxed(
                board,
                n,
                p,
                nd,
                w,
            ),
{
    assert forall|w: int|
        0 <= w < n * n && w != u && nd[w] < u16::MAX && !nq.contains(w as usize) implies #[trigger] relaxed(
        board,
        n,
        p,
        nd,
        w,
    ) by {
        assert(w != v);
        assert(!qq.contains(w as usize));
        assert(relaxed(board, n, p, dd, w));
        assert forall|jj: int|
            0 <= jj < neighbor_cells(n, row_of(n, w), col_of(n, w)).len() && passable(
                board,
                p,
                #[trigger] nb(n, w, jj),
            ) implies nd[nb(n, w, jj)] <= nd[w] + stone_cost(board, p, nb(n, w, jj)) by {
            assert(dd[nb(n, w, jj)] <= dd[w] + stone_cost(board, p, nb(n, w, jj)));
            lemma_cell_of(n, w);
            lemma_neighbor_list(n, w, 0);
            let r = row_of(n, w);
            let c = col_of(n, w);
            assert(0 <= nb_index(n, neighbor_cells(n, r, c)[jj]) < n * n);
        }
    }
}

/// The fewest stones `p` must add to join its two edges: the cheapest route
/// from its first edge to its second, found by a 0-1 breadth-first search
/// (own stones cost nothing, empty cells one, the opponent's stones block).
/// `u16::MAX` when no route is cheaper than that, in particular when the
/// opponent's stones cut every route.
pub fn shortest_route<const N: usize>(s: &HexState<N>, p: HexPlayer) -> (r: u16)
    requires
        s.wf(),
    ensures
        forall|path: Seq<int>|
            #[trigger] is_route(s.board@, N as int, p, path) && on_second_edge(N as int, p, path.last()) ==> r
                <= route_cost(s.board@, p, path),
        r == u16::MAX || crossing(s.board@, N as int, p, r as int),
{
    let ghost n = N as int;
    let ghost board = s.board@;
    proof {
        lemma_board_size(n);
        lemma_edge_cells(n, p);
    }
    let cells = N * N;
    let mut dist: Vec<u16> = Vec::new();
    let mut i: usize = 0;
    while i < cells
        invariant
            cells == n * n,
            i <= cells,
            dist@ == Seq::new(i as nat, |k: int| u16::MAX),
        decreases cells - i,
    {
        dist.push(u16::MAX);
        i = i + 1;
    }
    let mut deque: VecDeque<usize> = VecDeque::with_capacity(cells);
    let mut k: usize = 0;
    while k < N
        invariant
            s.wf(),
            n == N,
            board == s.board@,
            cells == n * n,
            k <= N,
            dist@.len() == n * n,
            forall|i: int| 0 <= i < n ==> 0 <= #[trigger] first_cell(n, p, i) < n * n && on_first_edge(n, p, first_cell(n, p, i)),
            forall|j: int|
                0 <= j < deque@.len() ==> #[trigger] deque@[j] < n * n && dist@[deque@[j] as int] < u16::MAX,
            forall|v: int| 0 <= v < n * n && dist@[v] < u16::MAX ==> #[trigger] deque@.contains(v as usize),
            forall|v: int| 0 <= v < n * n && dist@[v] < u16::MAX ==> #[trigger] reached(board, n, p, v, dist@[v] as int),
            forall|i: int|
                0 <= i < k && passable(board, p, first_cell(n, p, i)) ==> #[trigger] dist@[first_cell(n, p, i)]
                    <= stone_cost(board, p, first_cell(n, p, i)),
        decreases N - k,
    {
        assert(k * N <= 16384) by (nonlinear_arith)
            requires
                k < N,
                N <= 128,
        ;
        let idx = match p {
            HexPlayer::Black => HexState::<N>::idx(0, k),
            HexPlayer::White => HexState::<N>::idx(k, 0),
        };
        let ghost ki = k as int;
        assert(idx == first_cell(n, p, ki));
        let ghost d0 = dist@;
        let ghost q0 = deque@;
        match s.board[idx] {
            None => {
                dist.set(idx, 1);
                deque.push_back(idx);
                proof {
                    lemma_seed_route(board, n, p, idx as int);
                    assert(deque@[deque@.len() - 1] == idx);
                    assert forall|j: int| 0 <= j < deque@.len() implies #[trigger] deque@[j] < n * n && dist@[deque@[j] as int] < u16::MAX by {
                        if j < q0.len() {
                            assert(deque@[j] == q0[j]);
                        }
                    }
                    assert forall|v: int| 0 <= v < n * n && dist@[v] < u16::MAX implies #[trigger] deque@.contains(v as usize) by {
                        if v != idx {
                            assert(dist@[v] == d0[v]);
                            assert(q0.contains(v as usize));
                            let j = choose|j: int| 0 <= j < q0.len() && q0[j] == v as usize;
                            assert(deque@[j] == q0[j]);
                        }
                    }
                }
            },
            Some(q) => {
                if q == p {
                    dist.set(idx, 0);
                    deque.push_front(idx);
                    proof {
                        lemma_seed_route(board, n, p, idx as int);
                        assert(deque@[0] == idx);
                        assert forall|j: int| 0 <= j < deque@.len() implies #[trigger] deque@[j] < n * n && dist@[deque@[j] as int] < u16::MAX by {
                            if j > 0 {
                                assert(deque@[j] == q0[j - 1]);
                            }
                        }
                        assert forall|v: int| 0 <= v < n * n && dist@[v] < u16::MAX implies #[trigger] deque@.contains(v as usize) by {
                            if v != idx {
                                assert(dist@[v] == d0[v]);
                                assert(q0.contains(v as usize));
                                let j = choose|j: int| 0 <= j < q0.len() && q0[j] == v as usize;
                                assert(deque@[j + 1] == q0[j]);
                            }
                        }
                    }
                }
            },
        }
        proof {
            assert forall|i: int|
                0 <= i < k + 1 && passable(board, p, first_cell(n, p, i)) implies #[trigger] dist@[first_cell(n, p, i)]
                    <= stone_cost(board, p, first_cell(n, p, i)) by {
                if i < k {
                    if p == HexPlayer::Black {
                        assert(first_cell(n, p, i) != idx);
                    } else {
                        assert(first_cell(n, p, i) == i * n);
                        assert(idx == ki * n);
                        assert(i * n != ki * n) by (nonlinear_arith)
                            requires
                                i < ki,
                                n > 0,
                        ;
                    }
                    assert(dist@[first_cell(n, p, i)] == d0[first_cell(n, p, i)]);
                }
            }
        }
        k = k + 1;
    }
    proof {
        assert forall|v: int|
            0 <= v < n * n && on_first_edge(n, p, v) && passable(board, p, v) implies #[trigger] dist@[v]
                <= stone_cost(board, p, v) by {
            lemma_first_edge_seed(n, p, v);
            let i = if p == HexPlayer::Black { v } else { row_of(n, v) };
            assert(dist@[first_cell(n, p, i)] <= stone_cost(board, p, first_cell(n, p, i)));
        }
    }
    while deque.len() > 0
        invariant
            s.wf(),
            n == N,
            board == s.board@,
            cells == n * n,
            dist@.len() == n * n,
            forall|j: int|
                0 <= j < deque@.len() ==> #[trigger] deque@[j] < n * n && dist@[deque@[j] as int] < u16::MAX,
            forall|v: int| 0 <= v < n * n && dist@[v] < u16::MAX ==> #[trigger] reached(board, n, p, v, dist@[v] as int),
            forall|v: int|
                0 <= v < n * n && on_first_edge(n, p, v) && passable(board, p, v) ==> #[trigger] dist@[v]
                    <= stone_cost(board, p, v),
            forall|u: int|
                0 <= u < n * n && dist@[u] < u16::MAX && !deque@.contains(u as usize) ==> #[trigger] relaxed(
                    board,
                    n,
                    p,
                    dist@,
                    u,
                ),
        decreases dist_sum(dist@), deque@.len(),
    {
        let ghost q0 = deque@;
        let ghost s0 = dist_sum(dist@);
        let front = deque.pop_front();
        if let Some(u) = front {
            let ghost ui = u as int;
            assert(q0[0] == u);
            let d = dist[u];
            proof {
                lemma_cell_of(n, ui);
                lemma_neighbor_list(n, ui, 0);
            }
            let (r, c) = HexState::<N>::coord(u);
            let nbs = HexState::<N>::neighbors(r, c);
            let ghost cells_u = neighbor_cells(n, r as int, c as int);
            let ghost q1 = deque@;
            proof {
                assert forall|w: int|
                    0 <= w < n * n && w != ui && dist@[w] < u16::MAX && !q1.contains(w as usize) implies #[trigger] relaxed(
                    board,
                    n,
                    p,
                    dist@,
                    w,
                ) by {
                    if q0.contains(w as usize) {
                        let k = choose|k: int| 0 <= k < q0.len() && q0[k] == w as usize;
                        assert(k != 0);
                        assert(q1[k - 1] == q0[k]);
                    }
                }
            }
            let mut j: usize = 0;
            while j < nbs.len()
                invariant
                    s.wf(),
                    n == N,
                    board == s.board@,
                    cells == n * n,
                    dist@.len() == n * n,
                    0 <= ui < n * n,
                    r == row_of(n, ui),
                    c == col_of(n, ui),
                    cells_u == neighbor_cells(n, row_of(n, ui), col_of(n, ui)),
                    nbs@.len() == cells_u.len(),
                    forall|k: int| 0 <= k < nbs@.len() ==> (#[trigger] nbs@[k]).0 == cells_u[k].0 && nbs@[k].1 == cells_u[k].1,
                    forall|k: int| 0 <= k < cells_u.len() ==> 0 <= #[trigger] nb_index(n, cells_u[k]) < n * n,
                    j <= nbs@.len(),
                    dist@[ui] == d,
                    d < u16::MAX,
                    reached(board, n, p, ui, d as int),
                    q1 == q0.subrange(1, q0.len() as int),
                    forall|k: int| 0 <= k < q1.len() ==> #[trigger] q1[k] == q0[k + 1],
                    forall|v: usize| #[trigger] q1.contains(v) ==> deque@.contains(v),
                    dist_sum(dist@) <= s0,
                    dist_sum(dist@) == s0 ==> deque@.len() == q1.len(),
                    forall|k: int|
                        0 <= k < deque@.len() ==> #[trigger] deque@[k] < n * n && dist@[deque@[k] as int] < u16::MAX,
                    forall|v: int|
                        0 <= v < n * n && dist@[v] < u16::MAX ==> #[trigger] reached(board, n, p, v, dist@[v] as int),
                    forall|v: int|
                        0 <= v < n * n && on_first_edge(n, p, v) && passable(board, p, v) ==> #[trigger] dist@[v]
                            <= stone_cost(board, p, v),
                    forall|w: int|
                        0 <= w < n * n && w != ui && dist@[w] < u16::MAX && !deque@.contains(w as usize)
                            ==> #[trigger] relaxed(board, n, p, dist@, w),
                    forall|k: int|
                        0 <= k < j && passable(board, p, #[trigger] nb(n, ui, k)) ==> dist@[nb(n, ui, k)] <= d
                            + stone_cost(board, p, nb(n, ui, k)),
                decreases nbs@.len() - j,
            {
                let (nr, nc) = nbs[j];
                let ghost ji = j as int;
                assert(nbs@[ji].0 == cells_u[ji].0 && nbs@[ji].1 == cells_u[ji].1);
                assert(nb(n, ui, ji) == nr * n + nc);
                assert(0 <= nb_index(n, cells_u[ji]) < n * n);
                proof {
                    crate::hex::game::lemma_neighbors_on_board(n, r as int, c as int, ji);
                }
                let v = HexState::<N>::idx(nr, nc);
                let ghost vi = v as int;
                proof {
                    lemma_neighbor_list(n, ui, vi);
                    assert(adjacent(n, ui, vi));
                }
                let weight: Option<u16> = match s.board[v] {
                    None => Some(1),
                    Some(q) => if q == p {
                        Some(0)
                    } else {
                        None
                    },
                };
                assert(weight is Some <==> passable(board, p, vi));
                assert(weight is Some ==> weight->0 == stone_cost(board, p, vi));
                let ghost dd = dist@;
                let ghost qq = deque@;
                if let Some(w) = weight {
                    if d + w < dist[v] {
                        dist.set(v, d + w);
                        if w == 0 {
                            deque.push_front(v);
                        } else {
                            deque.push_back(v);
                        }
                        proof {
                            lemma_sum_update(dd, vi, (d + w) as u16);
                            lemma_extend_route(board, n, p, ui, vi, d as int);
                            assert(deque@.contains(v)) by {
                                if w == 0 {
                                    assert(deque@[0] == v);
                                } else {
                                    assert(deque@[deque@.len() - 1] == v);
                                }
                            }
                            assert forall|x: usize| #[trigger] qq.contains(x) implies deque@.contains(x) by {
                                let k = choose|k: int| 0 <= k < qq.len() && qq[k] == x;
                                if w == 0 {
                                    assert(deque@[k + 1] == x);
                                } else {
                                    assert(deque@[k] == x);
                                }
                            }
                            assert forall|k: int| 0 <= k < deque@.len() implies #[trigger] deque@[k] < n * n
                                && dist@[deque@[k] as int] < u16::MAX by {
                                if w == 0 {
                                    if k > 0 {
                                        assert(deque@[k] == qq[k - 1]);
                                    }
                                } else {
                                    if k < qq.len() {
                                        assert(deque@[k] == qq[k]);
                                    }
                                }
                            }
                            lemma_relax_others(board, n, p, dd, qq, dist@, deque@, ui, vi);
                            assert forall|k: int|
                                0 <= k < j + 1 && passable(board, p, #[trigger] nb(n, ui, k)) implies dist@[nb(n, ui, k)]
                                    <= d + stone_cost(board, p, nb(n, ui, k)) by {
                                if k < j {
                                    assert(dd[nb(n, ui, k)] <= d + stone_cost(board, p, nb(n, ui, k)));
                                }
                            }
                        }
                    }
                }
                j = j + 1;
            }
            proof {
                if !deque@.contains(u) {
                    assert(relaxed(board, n, p, dist@, ui));
                }
                assert forall|w: int|
                    0 <= w < n * n && dist@[w] < u16::MAX && !deque@.contains(w as usize) implies #[trigger] relaxed(
                    board,
                    n,
                    p,
                    dist@,
                    w,
                ) by {
                    if w != ui {
                    }
                }
            }
        }
    }
    let mut best: u16 = u16::MAX;
    let mut t: usize = 0;
    while t < N
        invariant
            s.wf(),
            n == N,
            t <= N,
            dist@.len() == n * n,
            forall|i: int| 0 <= i < n ==> 0 <= #[trigger] last_cell(n, p, i) < n * n && on_second_edge(n, p, last_cell(n, p, i)),
            forall|i: int| 0 <= i < t ==> best <= #[trigger] dist@[last_cell(n, p, i)],
            best == u16::MAX || exists|i: int| 0 <= i < t && best == #[trigger] dist@[last_cell(n, p, i)],
        decreases N - t,
    {
        assert((t * N + (N - 1)) <= 16384 && (N - 1) * N + t <= 16384) by (nonlinear_arith)
            requires
                t < N,
                N <= 128,
        ;
        let cell = match p {
            HexPlayer::Black => HexState::<N>::idx(N - 1, t),
            HexPlayer::White => HexState::<N>::idx(t, N - 1),
        };
        assert(cell == last_cell(n, p, t as int));
        if dist[cell] < best {
            best = dist[cell];
        }
        t = t + 1;
    }
    proof {
        assert forall|path: Seq<int>|
            #[trigger] is_route(board, n, p, path) && on_second_edge(n, p, path.last()) implies best <= route_cost(
            board,
            p,
            path,
        ) by {
            lemma_route_bound(board, n, p, dist@, path, path.len() - 1);
            assert(path.take(path.len() as int) == path);
            let v = path.last();
            assert(0 <= v < n * n) by {
                assert(path[path.len() - 1] == v);
            }
            let i = if p == HexPlayer::Black { col_of(n, v) } else { row_of(n, v) };
            lemma_cell_of(n, v);
            assert(v == last_cell(n, p, i));
            assert(best <= dist@[last_cell(n, p, i)]);
        }
        if best < u16::MAX {
            let i = choose|i: int| 0 <= i < t && best == #[trigger] dist@[last_cell(n, p, i)];
            let v = last_cell(n, p, i);
            assert(reached(board, n, p, v, dist@[v] as int));
            let path = choose|path: Seq<int>| #[trigger] is_route(board, n, p, path) && path.last() == v
                && route_cost(board, p, path) == dist@[v] as int;
            assert(crossing(board, n, p, best as int));
        }
    }
    best
}

} // verus!
