//! Connectivity of Hex stones: the paths a player's stones form between
//! their edges, and why the disjoint-set forests describe exactly them.
use crate::hex::dsu::{forest, lemma_singletons, root_of, rootmap, same_set, singletons, union_map, union_map_all};
use crate::hex::game::{
    col_of, edge_partners, first_stone, friendly_neighbors, lemma_cell, lemma_cell_of, lone_stone, merge_partners,
    neighbor_cells, on_first_edge, on_second_edge, row_of, spec_is_won, swap_available, forest_of, HexPlayer,
    HexState,
};
use vstd::prelude::*;

verus! {

/// The six neighbour offsets of the hexagonal lattice.
pub open spec fn offset_ok(dr: int, dc: int) -> bool {
    ||| (dr == -1 && dc == 0)
    ||| (dr == -1 && dc == 1)
    ||| (dr == 0 && dc == -1)
    ||| (dr == 0 && dc == 1)
    ||| (dr == 1 && dc == -1)
    ||| (dr == 1 && dc == 0)
}

/// Cells `a` and `b` of an `n`-by-`n` board are neighbours.
pub open spec fn adjacent(n: int, a: int, b: int) -> bool {
    &&& 0 <= a < n * n
    &&& 0 <= b < n * n
    &&& offset_ok(b / n - a / n, b % n - a % n)
}

/// Cell `a` holds a stone of `p`.
pub open spec fn stone(board: Seq<Option<HexPlayer>>, n: int, p: HexPlayer, a: int) -> bool {
    0 <= a < n * n && board[a] == Some(p)
}

/// A step of `p`'s graph: two neighbouring stones of `p`, or a stone of `p`
/// and the edge node it touches (`n * n` for the first edge, `n * n + 1`
/// for the second).
pub open spec fn link(board: Seq<Option<HexPlayer>>, n: int, p: HexPlayer, a: int, b: int) -> bool {
    ||| stone(board, n, p, a) && stone(board, n, p, b) && adjacent(n, a, b)
    ||| stone(board, n, p, a) && on_first_edge(n, p, a) && b == n * n
    ||| stone(board, n, p, b) && on_first_edge(n, p, b) && a == n * n
    ||| stone(board, n, p, a) && on_second_edge(n, p, a) && b == n * n + 1
    ||| stone(board, n, p, b) && on_second_edge(n, p, b) && a == n * n + 1
}

/// `path` walks through `p`'s graph.
pub open spec fn is_path(board: Seq<Option<HexPlayer>>, n: int, p: HexPlayer, path: Seq<int>) -> bool {
    &&& path.len() >= 1
    &&& forall|i: int| 0 <= i < path.len() ==> 0 <= #[trigger] path[i] < n * n + 2
    &&& forall|i: int| 0 <= i < path.len() - 1 ==> #[trigger] link(board, n, p, path[i], path[i + 1])
}

/// Nodes `u` and `v` are joined by a path of `p`'s stones.
pub open spec fn connected(board: Seq<Option<HexPlayer>>, n: int, p: HexPlayer, u: int, v: int) -> bool {
    exists|path: Seq<int>| #[trigger] is_path(board, n, p, path) && path[0] == u && path.last() == v
}

/// The forest puts two nodes in one set exactly when they are connected.
pub open spec fn tracks(forest: Seq<u16>, board: Seq<Option<HexPlayer>>, n: int, p: HexPlayer) -> bool {
    forall|u: int, v: int|
        #![trigger same_set(forest, u, v)]
        #![trigger connected(board, n, p, u, v)]
        0 <= u < n * n + 2 && 0 <= v < n * n + 2 ==> (same_set(forest, u, v) <==> connected(board, n, p, u, v))
}

/// Links go both ways.
pub proof fn lemma_link_symmetric(board: Seq<Option<HexPlayer>>, n: int, p: HexPlayer, a: int, b: int)
    requires
        n > 0,
        link(board, n, p, a, b),
    ensures
        link(board, n, p, b, a),
{
    if stone(board, n, p, a) && stone(board, n, p, b) && adjacent(n, a, b) {
        lemma_adjacent_symmetric(n, a, b);
    }
}

/// Neighbourhood goes both ways.
pub proof fn lemma_adjacent_symmetric(n: int, a: int, b: int)
    requires
        n > 0,
        adjacent(n, a, b),
    ensures
        adjacent(n, b, a),
{
}

/// Every node is connected to itself.
pub proof fn lemma_connected_refl(board: Seq<Option<HexPlayer>>, n: int, p: HexPlayer, u: int)
    requires
        0 <= u < n * n + 2,
    ensures
        connected(board, n, p, u, u),
{
    let path = seq![u];
    assert(is_path(board, n, p, path));
}

/// Paths can be followed backwards.
pub proof fn lemma_connected_symmetric(board: Seq<Option<HexPlayer>>, n: int, p: HexPlayer, u: int, v: int)
    requires
        n > 0,
        connected(board, n, p, u, v),
    ensures
        connected(board, n, p, v, u),
{
    let path = choose|path: Seq<int>| #[trigger] is_path(board, n, p, path) && path[0] == u && path.last() == v;
    let rev = path.reverse();
    assert forall|i: int| 0 <= i < rev.len() - 1 implies #[trigger] link(board, n, p, rev[i], rev[i + 1]) by {
        let j = path.len() - 2 - i;
        assert(link(board, n, p, path[j], path[j + 1]));
        lemma_link_symmetric(board, n, p, path[j], path[j + 1]);
    }
    assert forall|i: int| 0 <= i < rev.len() implies 0 <= #[trigger] rev[i] < n * n + 2 by {
        assert(rev[i] == path[path.len() - 1 - i]);
    }
    assert(is_path(board, n, p, rev));
}

/// Paths can be joined end to start.
pub proof fn lemma_connected_trans(board: Seq<Option<HexPlayer>>, n: int, p: HexPlayer, u: int, w: int, v: int)
    requires
        connected(board, n, p, u, w),
        connected(board, n, p, w, v),
    ensures
        connected(board, n, p, u, v),
{
    let a = choose|path: Seq<int>| #[trigger] is_path(board, n, p, path) && path[0] == u && path.last() == w;
    let b = choose|path: Seq<int>| #[trigger] is_path(board, n, p, path) && path[0] == w && path.last() == v;
    let c = a + b.drop_first();
    assert forall|i: int| 0 <= i < c.len() implies 0 <= #[trigger] c[i] < n * n + 2 by {
        if i >= a.len() {
            assert(c[i] == b[i - a.len() + 1]);
        }
    }
    assert forall|i: int| 0 <= i < c.len() - 1 implies #[trigger] link(board, n, p, c[i], c[i + 1]) by {
        if i < a.len() - 1 {
            assert(link(board, n, p, a[i], a[i + 1]));
        } else if i == a.len() - 1 {
            assert(c[i] == w && c[i + 1] == b[1]);
            assert(link(board, n, p, b[0], b[1]));
        } else {
            let k = i - a.len() + 1;
            assert(c[i] == b[k] && c[i + 1] == b[k + 1]);
            assert(link(board, n, p, b[k], b[k + 1]));
        }
    }
    assert(is_path(board, n, p, c));
    if b.len() == 1 {
        assert(c.last() == a.last());
    } else {
        assert(c.last() == b.last());
    }
}

/// One step extends a path.
pub proof fn lemma_connected_step(board: Seq<Option<HexPlayer>>, n: int, p: HexPlayer, u: int, w: int, v: int)
    requires
        connected(board, n, p, u, w),
        link(board, n, p, w, v),
        0 <= v < n * n + 2,
    ensures
        connected(board, n, p, u, v),
{
    let path = seq![w, v];
    assert(is_path(board, n, p, path));
    lemma_connected_trans(board, n, p, u, w, v);
}


/// The flat index of a neighbour cell.
pub open spec fn nb_index(n: int, nb: (int, int)) -> int {
    nb.0 * n + nb.1
}

/// The listed neighbours of a cell are exactly its neighbours on the board.
pub proof fn lemma_neighbor_list(n: int, x: int, q: int)
    requires
        n > 0,
        0 <= x < n * n,
        0 <= q < n * n,
    ensures
        adjacent(n, x, q) <==> exists|k: int|
            0 <= k < neighbor_cells(n, row_of(n, x), col_of(n, x)).len() && #[trigger] nb_index(
                n,
                neighbor_cells(n, row_of(n, x), col_of(n, x))[k],
            ) == q,
        forall|k: int|
            0 <= k < neighbor_cells(n, row_of(n, x), col_of(n, x)).len() ==> 0 <= #[trigger] nb_index(
                n,
                neighbor_cells(n, row_of(n, x), col_of(n, x))[k],
            ) < n * n,
{
    lemma_cell_of(n, x);
    lemma_cell_of(n, q);
    let r = row_of(n, x);
    let c = col_of(n, x);
    let nbs = neighbor_cells(n, r, c);
    assert forall|k: int| 0 <= k < nbs.len() implies 0 <= #[trigger] nb_index(n, nbs[k]) < n * n && offset_ok(
        nbs[k].0 - r,
        nbs[k].1 - c,
    ) && row_of(n, nb_index(n, nbs[k])) == nbs[k].0 && col_of(n, nb_index(n, nbs[k])) == nbs[k].1 by {
        assert(0 <= nbs[k].0 < n && 0 <= nbs[k].1 < n);
        lemma_cell(n, nbs[k].0, nbs[k].1);
    }
    if adjacent(n, x, q) {
        let qr = row_of(n, q);
        let qc = col_of(n, q);
        lemma_cell(n, qr, qc);
        let on = |a: int, b: int| 0 <= a < n && 0 <= b < n;
        let s0 = if on(r - 1, c) { seq![(r - 1, c)] } else { Seq::<(int, int)>::empty() };
        let s1 = if on(r - 1, c + 1) { s0.push((r - 1, c + 1)) } else { s0 };
        let s2 = if on(r, c - 1) { s1.push((r, c - 1)) } else { s1 };
        let s3 = if on(r, c + 1) { s2.push((r, c + 1)) } else { s2 };
        let s4 = if on(r + 1, c - 1) { s3.push((r + 1, c - 1)) } else { s3 };
        let s5 = if on(r + 1, c) { s4.push((r + 1, c)) } else { s4 };
        assert(s5 == nbs);
        assert(nb_index(n, (qr, qc)) == q);
        let t = (qr, qc);
        assert(0 <= qr < n && 0 <= qc < n);
        let dr = qr - r;
        let dc = qc - c;
        if dr == -1 && dc == 0 {
            assert(s0.contains(t)) by { assert(s0[0] == t); }
        }
        if s0.contains(t) || (dr == -1 && dc == 1) {
            assert(s1.contains(t)) by { lemma_push_keeps(s0, (r - 1, c + 1), t); }
        }
        if s1.contains(t) || (dr == 0 && dc == -1) {
            assert(s2.contains(t)) by { lemma_push_keeps(s1, (r, c - 1), t); }
        }
        if s2.contains(t) || (dr == 0 && dc == 1) {
            assert(s3.contains(t)) by { lemma_push_keeps(s2, (r, c + 1), t); }
        }
        if s3.contains(t) || (dr == 1 && dc == -1) {
            assert(s4.contains(t)) by { lemma_push_keeps(s3, (r + 1, c - 1), t); }
        }
        if s4.contains(t) || (dr == 1 && dc == 0) {
            assert(s5.contains(t)) by { lemma_push_keeps(s4, (r + 1, c), t); }
        }
        assert(nbs.contains((qr, qc)));
        let k = choose|k: int| 0 <= k < nbs.len() && nbs[k] == (qr, qc);
        assert(nb_index(n, nbs[k]) == q);
    }
    if exists|k: int| 0 <= k < nbs.len() && #[trigger] nb_index(n, nbs[k]) == q {
        let k = choose|k: int| 0 <= k < nbs.len() && #[trigger] nb_index(n, nbs[k]) == q;
        assert(row_of(n, q) == nbs[k].0 && col_of(n, q) == nbs[k].1);
    }
}

/// Pushing keeps what a sequence holds and adds the pushed value.
proof fn lemma_push_keeps<A>(s: Seq<A>, v: A, w: A)
    ensures
        s.contains(w) ==> s.push(v).contains(w),
        s.push(v).contains(v),
{
    assert(s.push(v)[s.len() as int] == v);
    if s.contains(w) {
        let i = choose|i: int| 0 <= i < s.len() && s[i] == w;
        assert(s.push(v)[i] == w);
    }
}

/// The friendly neighbours found among the first `k` listed neighbours.
pub proof fn lemma_friendly_contains(board: Seq<Option<HexPlayer>>, n: int, p: HexPlayer, x: int, k: int, q: int)
    requires
        0 <= k <= neighbor_cells(n, row_of(n, x), col_of(n, x)).len(),
    ensures
        friendly_neighbors(board, n, p, x, k).contains(q) <==> (board[q] == Some(p) && exists|j: int|
            0 <= j < k && #[trigger] nb_index(n, neighbor_cells(n, row_of(n, x), col_of(n, x))[j]) == q),
    decreases k,
{
    if k > 0 {
        lemma_friendly_contains(board, n, p, x, k - 1, q);
        let nbs = neighbor_cells(n, row_of(n, x), col_of(n, x));
        let rest = friendly_neighbors(board, n, p, x, k - 1);
        let cell = nb_index(n, nbs[k - 1]);
        if board[cell] == Some(p) {
            assert(friendly_neighbors(board, n, p, x, k) == rest.push(cell));
            if rest.push(cell).contains(q) && !rest.contains(q) {
                assert(q == cell);
            }
            if cell == q {
                assert(rest.push(cell)[rest.len() as int] == q);
            }
            if rest.contains(q) {
                let i = choose|i: int| 0 <= i < rest.len() && rest[i] == q;
                assert(rest.push(cell)[i] == q);
            }
        }
    }
}

/// The merge partners of a new stone of `p` at `x` are exactly the nodes
/// linked to it.
pub proof fn lemma_partners_are_links(board: Seq<Option<HexPlayer>>, n: int, p: HexPlayer, x: int, q: int)
    requires
        n > 0,
        stone(board, n, p, x),
        0 <= q < n * n + 2,
    ensures
        link(board, n, p, x, q) <==> merge_partners(board, n, p, x).contains(q),
{
    let nbs = neighbor_cells(n, row_of(n, x), col_of(n, x));
    let e = edge_partners(n, p, x);
    let f = friendly_neighbors(board, n, p, x, nbs.len() as int);
    let m = merge_partners(board, n, p, x);
    assert(m == e + f);
    lemma_friendly_contains(board, n, p, x, nbs.len() as int, q);
    assert(m.contains(q) <==> (e.contains(q) || f.contains(q))) by {
        if m.contains(q) {
            let i = choose|i: int| 0 <= i < m.len() && m[i] == q;
            if i >= e.len() {
                assert(f[i - e.len()] == q);
            } else {
                assert(e[i] == q);
            }
        }
        if f.contains(q) {
            let i = choose|i: int| 0 <= i < f.len() && f[i] == q;
            assert(m[e.len() + i] == q);
        }
        if e.contains(q) {
            let i = choose|i: int| 0 <= i < e.len() && e[i] == q;
            assert(m[i] == q);
        }
    }
    let e1: Seq<int> = if on_first_edge(n, p, x) { seq![n * n] } else { Seq::empty() };
    assert(e == (if on_second_edge(n, p, x) { e1.push(n * n + 1) } else { e1 }));
    assert(e.contains(q) <==> ((q == n * n && on_first_edge(n, p, x)) || (q == n * n + 1 && on_second_edge(n, p, x)))) by {
        lemma_push_keeps(e1, n * n + 1, q);
        if e.contains(q) {
            let i = choose|i: int| 0 <= i < e.len() && e[i] == q;
            if on_second_edge(n, p, x) && i == e1.len() {
            } else {
                assert(e1[i] == q);
            }
        }
        if q == n * n && on_first_edge(n, p, x) {
            assert(e1[0] == q);
            assert(e1.contains(q));
        }
    }
    if q < n * n {
        lemma_neighbor_list(n, x, q);
        assert(!e.contains(q));
        assert(link(board, n, p, x, q) <==> (stone(board, n, p, q) && adjacent(n, x, q)));
        assert(f.contains(q) <==> (stone(board, n, p, q) && adjacent(n, x, q)));
    } else {
        assert forall|j: int| 0 <= j < nbs.len() implies #[trigger] nb_index(n, nbs[j]) != q by {
            lemma_neighbor_list(n, x, 0);
        }
        assert(!f.contains(q));
    }
}


/// A path stays a path when the player's stones only grow.
pub proof fn lemma_path_grow(
    board: Seq<Option<HexPlayer>>,
    board2: Seq<Option<HexPlayer>>,
    n: int,
    p: HexPlayer,
    path: Seq<int>,
)
    requires
        forall|a: int| #[trigger] stone(board, n, p, a) ==> stone(board2, n, p, a),
        is_path(board, n, p, path),
    ensures
        is_path(board2, n, p, path),
{
    assert forall|i: int| 0 <= i < path.len() - 1 implies #[trigger] link(board2, n, p, path[i], path[i + 1]) by {
        assert(link(board, n, p, path[i], path[i + 1]));
        assert(stone(board, n, p, path[i]) ==> stone(board2, n, p, path[i]));
        assert(stone(board, n, p, path[i + 1]) ==> stone(board2, n, p, path[i + 1]));
    }
}

/// Connections stay when the player's stones only grow.
pub proof fn lemma_connected_grow(
    board: Seq<Option<HexPlayer>>,
    board2: Seq<Option<HexPlayer>>,
    n: int,
    p: HexPlayer,
    u: int,
    v: int,
)
    requires
        forall|a: int| #[trigger] stone(board, n, p, a) ==> stone(board2, n, p, a),
        connected(board, n, p, u, v),
    ensures
        connected(board2, n, p, u, v),
{
    let path = choose|path: Seq<int>| #[trigger] is_path(board, n, p, path) && path[0] == u && path.last() == v;
    lemma_path_grow(board, board2, n, p, path);
}

/// An empty cell is connected to nothing but itself.
pub proof fn lemma_empty_isolated(board: Seq<Option<HexPlayer>>, n: int, p: HexPlayer, x: int, v: int)
    requires
        0 <= x < n * n,
        board[x] is None,
        connected(board, n, p, x, v),
    ensures
        v == x,
{
    let path = choose|path: Seq<int>| #[trigger] is_path(board, n, p, path) && path[0] == x && path.last() == v;
    if path.len() > 1 {
        let i: int = 0;
        assert(link(board, n, p, path[i], path[i + 1]));
    }
}

/// Node `w` reaches the new stone at `x`: it is `x`, or it is connected
/// (before the stone) to a node the stone is merged with.
pub open spec fn reaches_stone(board: Seq<Option<HexPlayer>>, n: int, p: HexPlayer, x: int, w: int) -> bool {
    w == x || exists|q: int|
        #[trigger] merge_partners(board.update(x, Some(p)), n, p, x).contains(q) && connected(board, n, p, w, q)
}

/// Walking a path after the stone at `x` is placed, up to step `k`: before
/// the walk meets `x` it is a path of the old board; once it has met `x`,
/// both its start and its current node reach the stone.
proof fn lemma_walk(board: Seq<Option<HexPlayer>>, n: int, p: HexPlayer, x: int, path: Seq<int>, k: int)
    requires
        board.len() == n * n,
        n > 0,
        0 <= x < n * n,
        board[x] is None,
        is_path(board.update(x, Some(p)), n, p, path),
        0 <= k < path.len(),
    ensures
        !path.take(k + 1).contains(x) ==> connected(board, n, p, path[0], path[k]),
        path.take(k + 1).contains(x) ==> reaches_stone(board, n, p, x, path[0]) && reaches_stone(
            board,
            n,
            p,
            x,
            path[k],
        ),
    decreases k,
{
    let b2 = board.update(x, Some(p));
    assert(stone(b2, n, p, x));
    if k == 0 {
        assert(path.take(1)[0] == path[0]);
        if path[0] != x {
            lemma_connected_refl(board, n, p, path[0]);
        }
        assert(path.take(1).contains(x) ==> path[0] == x) by {
            if path.take(1).contains(x) {
                let i = choose|i: int| 0 <= i < 1 && #[trigger] path.take(1)[i] == x;
            }
        }
    } else {
        lemma_walk(board, n, p, x, path, k - 1);
        let w = path[k - 1];
        let w2 = path[k];
        assert(link(b2, n, p, w, w2));
        assert(path.take(k + 1) == path.take(k).push(w2));
        lemma_push_keeps(path.take(k), w2, x);
        assert(path.take(k + 1).contains(x) <==> (path.take(k).contains(x) || w2 == x)) by {
            if path.take(k + 1).contains(x) && w2 != x {
                let i = choose|i: int| 0 <= i < k + 1 && #[trigger] path.take(k + 1)[i] == x;
                assert(path.take(k)[i] == x);
            }
        }
        assert(path.take(k).contains(x) ==> true);
        if !path.take(k).contains(x) {
            assert(w != x) by {
                assert(path.take(k)[k - 1] == w);
            }
            if w2 == x {
                lemma_link_symmetric(b2, n, p, w, w2);
                lemma_partners_are_links(b2, n, p, x, w);
                assert(merge_partners(b2, n, p, x).contains(w));
                assert(reaches_stone(board, n, p, x, path[0]));
            } else {
                lemma_link_unchanged(board, n, p, x, w, w2);
                lemma_connected_step(board, n, p, path[0], w, w2);
            }
        } else {
            if w2 != x {
                if w == x {
                    lemma_partners_are_links(b2, n, p, x, w2);
                    lemma_connected_refl(board, n, p, w2);
                    assert(merge_partners(b2, n, p, x).contains(w2) && connected(board, n, p, w2, w2));
                } else {
                    lemma_link_unchanged(board, n, p, x, w, w2);
                    let q = choose|q: int|
                        #[trigger] merge_partners(b2, n, p, x).contains(q) && connected(board, n, p, w, q);
                    lemma_connected_symmetric(board, n, p, w, q);
                    lemma_connected_step(board, n, p, q, w, w2);
                    lemma_connected_symmetric(board, n, p, q, w2);
                    assert(merge_partners(b2, n, p, x).contains(q) && connected(board, n, p, w2, q));
                }
            }
        }
    }
}

/// A link of the new board that avoids `x` is a link of the old board.
proof fn lemma_link_unchanged(board: Seq<Option<HexPlayer>>, n: int, p: HexPlayer, x: int, a: int, b: int)
    requires
        board.len() == n * n,
        0 <= x < n * n,
        board[x] is None,
        a != x,
        b != x,
        link(board.update(x, Some(p)), n, p, a, b),
    ensures
        link(board, n, p, a, b),
{
    let b2 = board.update(x, Some(p));
    assert(stone(b2, n, p, a) == stone(board, n, p, a));
    assert(stone(b2, n, p, b) == stone(board, n, p, b));
}

/// Placing a stone of `p` on the empty cell `x` connects two nodes exactly
/// when they were connected, or both reach the new stone.
pub proof fn lemma_place_connects(board: Seq<Option<HexPlayer>>, n: int, p: HexPlayer, x: int, u: int, v: int)
    requires
        board.len() == n * n,
        n > 0,
        0 <= x < n * n,
        board[x] is None,
        0 <= u < n * n + 2,
        0 <= v < n * n + 2,
    ensures
        connected(board.update(x, Some(p)), n, p, u, v) <==> (connected(board, n, p, u, v) || (reaches_stone(
            board,
            n,
            p,
            x,
            u,
        ) && reaches_stone(board, n, p, x, v))),
{
    let b2 = board.update(x, Some(p));
    assert(stone(b2, n, p, x));
    assert forall|a: int| #[trigger] stone(board, n, p, a) implies stone(b2, n, p, a) by {}
    if connected(b2, n, p, u, v) {
        let path = choose|path: Seq<int>| #[trigger] is_path(b2, n, p, path) && path[0] == u && path.last() == v;
        lemma_walk(board, n, p, x, path, path.len() - 1);
        assert(path.take(path.len() as int) == path);
        if path.contains(x) {
            assert(reaches_stone(board, n, p, x, v));
        }
    }
    if connected(board, n, p, u, v) {
        lemma_connected_grow(board, b2, n, p, u, v);
    }
    if reaches_stone(board, n, p, x, u) && reaches_stone(board, n, p, x, v) {
        lemma_reach_new(board, n, p, x, u);
        lemma_reach_new(board, n, p, x, v);
        lemma_connected_symmetric(b2, n, p, v, x);
        lemma_connected_trans(b2, n, p, u, x, v);
    }
}

/// A node that reaches the new stone is connected to it on the new board.
proof fn lemma_reach_new(board: Seq<Option<HexPlayer>>, n: int, p: HexPlayer, x: int, w: int)
    requires
        board.len() == n * n,
        n > 0,
        0 <= x < n * n,
        board[x] is None,
        0 <= w < n * n + 2,
        reaches_stone(board, n, p, x, w),
    ensures
        connected(board.update(x, Some(p)), n, p, w, x),
{
    let b2 = board.update(x, Some(p));
    assert(stone(b2, n, p, x));
    if w == x {
        lemma_connected_refl(b2, n, p, x);
    } else {
        let q = choose|q: int| #[trigger] merge_partners(b2, n, p, x).contains(q) && connected(board, n, p, w, q);
        assert forall|a: int| #[trigger] stone(board, n, p, a) implies stone(b2, n, p, a) by {}
        lemma_connected_grow(board, b2, n, p, w, q);
        let path = choose|path: Seq<int>| #[trigger] is_path(board, n, p, path) && path[0] == w && path.last() == q;
        assert(0 <= q < n * n + 2);
        lemma_partners_are_links(b2, n, p, x, q);
        lemma_link_symmetric(b2, n, p, x, q);
        lemma_connected_step(b2, n, p, w, q, x);
    }
}


/// The root `r` is that of `x` or of one of `ps` in the root map `m`.
pub open spec fn in_merged_class(m: Seq<int>, x: int, ps: Seq<int>, r: int) -> bool {
    r == m[x] || exists|k: int| 0 <= k < ps.len() && r == m[#[trigger] ps[k]]
}

/// Merging `x` with each of `ps` in turn joins two nodes exactly when they
/// were joined, or both were with `x` or one of `ps`.
pub proof fn lemma_union_all_joins(m: Seq<int>, x: int, ps: Seq<int>)
    requires
        0 <= x < m.len(),
        forall|k: int| 0 <= k < ps.len() ==> 0 <= #[trigger] ps[k] < m.len(),
    ensures
        union_map_all(m, x, ps).len() == m.len(),
        forall|u: int, v: int|
            0 <= u < m.len() && 0 <= v < m.len() ==> (#[trigger] union_map_all(m, x, ps)[u] == #[trigger] union_map_all(
                m,
                x,
                ps,
            )[v] <==> (m[u] == m[v] || (in_merged_class(m, x, ps, m[u]) && in_merged_class(m, x, ps, m[v])))),
    decreases ps.len(),
{
    if ps.len() > 0 {
        let q = ps.drop_last();
        let y = ps.last();
        assert forall|k: int| 0 <= k < q.len() implies 0 <= #[trigger] q[k] < m.len() by {
            assert(q[k] == ps[k]);
        }
        lemma_union_all_joins(m, x, q);
        let mm = union_map_all(m, x, q);
        assert(0 <= y < m.len()) by {
            assert(ps[ps.len() - 1] == y);
        }
        assert forall|r: int| #[trigger] in_merged_class(m, x, ps, r) <==> (in_merged_class(m, x, q, r) || r == m[y]) by {
            if in_merged_class(m, x, ps, r) && r != m[x] {
                let k = choose|k: int| 0 <= k < ps.len() && r == m[#[trigger] ps[k]];
                if k < q.len() {
                    assert(q[k] == ps[k]);
                }
            }
            if in_merged_class(m, x, q, r) && r != m[x] {
                let k = choose|k: int| 0 <= k < q.len() && r == m[#[trigger] q[k]];
                assert(q[k] == ps[k]);
            }
            if r == m[y] {
                assert(ps[ps.len() - 1] == y);
            }
        }
        assert forall|u: int, v: int|
            0 <= u < m.len() && 0 <= v < m.len() implies (#[trigger] union_map_all(m, x, ps)[u] == #[trigger] union_map_all(
            m,
            x,
            ps,
        )[v] <==> (m[u] == m[v] || (in_merged_class(m, x, ps, m[u]) && in_merged_class(m, x, ps, m[v])))) by {
            assert(mm[u] == mm[x] <==> in_merged_class(m, x, q, m[u]));
            assert(mm[v] == mm[x] <==> in_merged_class(m, x, q, m[v]));
            assert(mm[u] == mm[y] <==> (m[u] == m[y] || (in_merged_class(m, x, q, m[u]) && in_merged_class(m, x, q, m[y]))));
            assert(mm[v] == mm[y] <==> (m[v] == m[y] || (in_merged_class(m, x, q, m[v]) && in_merged_class(m, x, q, m[y]))));
            assert(mm[u] == mm[v] <==> (m[u] == m[v] || (in_merged_class(m, x, q, m[u]) && in_merged_class(m, x, q, m[v]))));
            assert(in_merged_class(m, x, q, m[y]) <==> mm[y] == mm[x]);
        }
    }
}


/// A stone's merge partners are nodes of the graph.
pub proof fn lemma_partners_in_range(board: Seq<Option<HexPlayer>>, n: int, p: HexPlayer, x: int)
    requires
        n > 0,
        0 <= x < n * n,
    ensures
        forall|k: int|
            0 <= k < merge_partners(board, n, p, x).len() ==> 0 <= #[trigger] merge_partners(board, n, p, x)[k] < n
                * n + 2,
{
    let nbs = neighbor_cells(n, row_of(n, x), col_of(n, x));
    let e = edge_partners(n, p, x);
    let f = friendly_neighbors(board, n, p, x, nbs.len() as int);
    let m = merge_partners(board, n, p, x);
    assert(m == e + f);
    lemma_neighbor_list(n, x, 0);
    assert(n * n >= 0) by (nonlinear_arith)
        requires
            n > 0,
    ;
    assert forall|k: int| 0 <= k < m.len() implies 0 <= #[trigger] m[k] < n * n + 2 by {
        if k < e.len() {
            let e1: Seq<int> = if on_first_edge(n, p, x) { seq![n * n] } else { Seq::empty() };
            assert(e == (if on_second_edge(n, p, x) { e1.push(n * n + 1) } else { e1 }));
            assert(m[k] == e[k]);
        } else {
            let q = f[k - e.len()];
            assert(m[k] == q);
            assert(f.contains(q));
            lemma_friendly_contains(board, n, p, x, nbs.len() as int, q);
        }
    }
}

/// Connectivity is a matter of the player's stones alone.
pub proof fn lemma_same_stones_connected(
    board: Seq<Option<HexPlayer>>,
    board2: Seq<Option<HexPlayer>>,
    n: int,
    p: HexPlayer,
    u: int,
    v: int,
)
    requires
        forall|a: int| #[trigger] stone(board, n, p, a) <==> stone(board2, n, p, a),
    ensures
        connected(board, n, p, u, v) <==> connected(board2, n, p, u, v),
{
    assert forall|a: int| #[trigger] stone(board, n, p, a) implies stone(board2, n, p, a) by {}
    assert forall|a: int| #[trigger] stone(board2, n, p, a) implies stone(board, n, p, a) by {}
    if connected(board, n, p, u, v) {
        lemma_connected_grow(board, board2, n, p, u, v);
    }
    if connected(board2, n, p, u, v) {
        lemma_connected_grow(board2, board, n, p, u, v);
    }
}

/// A node reaches the new stone at `x` exactly when its old set is that of
/// `x` or of one of the stone's merge partners.
proof fn lemma_reach_is_class(
    board: Seq<Option<HexPlayer>>,
    f: Seq<u16>,
    n: int,
    p: HexPlayer,
    x: int,
    w: int,
)
    requires
        n > 0,
        board.len() == n * n,
        0 <= x < n * n,
        board[x] is None,
        forest(f),
        f.len() == n * n + 2,
        tracks(f, board, n, p),
        0 <= w < n * n + 2,
    ensures
        reaches_stone(board, n, p, x, w) <==> in_merged_class(
            rootmap(f),
            x,
            merge_partners(board.update(x, Some(p)), n, p, x),
            rootmap(f)[w],
        ),
{
    let b2 = board.update(x, Some(p));
    let m = rootmap(f);
    let ps = merge_partners(b2, n, p, x);
    lemma_partners_in_range(b2, n, p, x);
    assert(m[w] == root_of(f, w));
    assert(m[x] == root_of(f, x));
    if m[w] == m[x] {
        assert(same_set(f, w, x));
        assert(connected(board, n, p, w, x));
        lemma_connected_symmetric(board, n, p, w, x);
        lemma_empty_isolated(board, n, p, x, w);
    }
    if w == x {
    }
    if exists|k: int| 0 <= k < ps.len() && m[w] == m[#[trigger] ps[k]] {
        let k = choose|k: int| 0 <= k < ps.len() && m[w] == m[#[trigger] ps[k]];
        let q = ps[k];
        assert(same_set(f, w, q));
        assert(connected(board, n, p, w, q));
        assert(ps.contains(q));
    }
    if reaches_stone(board, n, p, x, w) && w != x {
        let q = choose|q: int| #[trigger] ps.contains(q) && connected(board, n, p, w, q);
        let k = choose|k: int| 0 <= k < ps.len() && ps[k] == q;
        assert(0 <= q < n * n + 2);
        assert(same_set(f, w, q));
        assert(m[q] == root_of(f, q));
        assert(m[w] == m[ps[k]]);
    }
}

/// Placing a stone of `p` on an empty cell and merging its sets as
/// `play_move` does keeps `p`'s forest describing `p`'s connections.
pub proof fn lemma_place_tracks(
    board: Seq<Option<HexPlayer>>,
    f: Seq<u16>,
    g: Seq<u16>,
    n: int,
    p: HexPlayer,
    x: int,
)
    requires
        n > 0,
        board.len() == n * n,
        0 <= x < n * n,
        board[x] is None,
        forest(f),
        forest(g),
        f.len() == n * n + 2,
        g.len() == n * n + 2,
        tracks(f, board, n, p),
        rootmap(g) == union_map_all(rootmap(f), x, merge_partners(board.update(x, Some(p)), n, p, x)),
    ensures
        tracks(g, board.update(x, Some(p)), n, p),
{
    let b2 = board.update(x, Some(p));
    let m = rootmap(f);
    let ps = merge_partners(b2, n, p, x);
    lemma_partners_in_range(b2, n, p, x);
    assert(n * n >= 0) by (nonlinear_arith)
        requires
            n > 0,
    ;
    lemma_union_all_joins(m, x, ps);
    assert forall|u: int, v: int|
        0 <= u < n * n + 2 && 0 <= v < n * n + 2 implies (#[trigger] same_set(g, u, v) <==> #[trigger] connected(
        b2,
        n,
        p,
        u,
        v,
    )) by {
        assert(rootmap(g)[u] == root_of(g, u));
        assert(rootmap(g)[v] == root_of(g, v));
        assert(m[u] == root_of(f, u));
        assert(m[v] == root_of(f, v));
        assert(same_set(f, u, v) <==> connected(board, n, p, u, v));
        lemma_place_connects(board, n, p, x, u, v);
        lemma_reach_is_class(board, f, n, p, x, u);
        lemma_reach_is_class(board, f, n, p, x, v);
        assert(union_map_all(m, x, ps)[u] == union_map_all(m, x, ps)[v] <==> (m[u] == m[v] || (in_merged_class(
            m,
            x,
            ps,
            m[u],
        ) && in_merged_class(m, x, ps, m[v]))));
    }
}


/// Both players' forests describe their connections.
pub open spec fn tracks_all<const N: usize>(st: HexState<N>) -> bool {
    &&& tracks(st.dsu_black@, st.board@, N as int, HexPlayer::Black)
    &&& tracks(st.dsu_white@, st.board@, N as int, HexPlayer::White)
}

/// Without stones of `p`, a node is connected to itself alone.
pub proof fn lemma_no_stones(board: Seq<Option<HexPlayer>>, n: int, p: HexPlayer, u: int, v: int)
    requires
        forall|a: int| !#[trigger] stone(board, n, p, a),
        0 <= u < n * n + 2,
    ensures
        connected(board, n, p, u, v) <==> u == v,
{
    if connected(board, n, p, u, v) {
        let path = choose|path: Seq<int>| #[trigger] is_path(board, n, p, path) && path[0] == u && path.last() == v;
        if path.len() > 1 {
            let i: int = 0;
            assert(link(board, n, p, path[i], path[i + 1]));
            assert(stone(board, n, p, path[0]) || stone(board, n, p, path[1]));
        }
    }
    if u == v {
        lemma_connected_refl(board, n, p, u);
    }
}

/// The forest of singletons describes a board without stones of `p`.
pub proof fn lemma_fresh_tracks(board: Seq<Option<HexPlayer>>, n: int, p: HexPlayer)
    requires
        n > 0,
        n * n + 2 <= 65536,
        forall|a: int| !#[trigger] stone(board, n, p, a),
    ensures
        tracks(singletons((n * n + 2) as nat), board, n, p),
{
    let f = singletons((n * n + 2) as nat);
    lemma_singletons((n * n + 2) as nat);
    assert forall|u: int, v: int|
        0 <= u < n * n + 2 && 0 <= v < n * n + 2 implies (#[trigger] same_set(f, u, v) <==> #[trigger] connected(
        board,
        n,
        p,
        u,
        v,
    )) by {
        assert(root_of(f, u) == u && root_of(f, v) == v);
        lemma_no_stones(board, n, p, u, v);
    }
}

/// A stone of the player to move on an empty cell, merged as `play_move`
/// merges it, keeps both forests describing both players' connections.
pub proof fn lemma_play_tracks<const N: usize>(pre: HexState<N>, post: HexState<N>, x: int)
    requires
        pre.wf(),
        post.wf(),
        0 <= x < N * N,
        pre.board@[x] is None,
        tracks_all(pre),
        post.board@ == pre.board@.update(x, Some(pre.current_player)),
        rootmap(forest_of(post, pre.current_player)) == union_map_all(
            rootmap(forest_of(pre, pre.current_player)),
            x,
            merge_partners(post.board@, N as int, pre.current_player, x),
        ),
        forest_of(post, pre.current_player.spec_other()) == forest_of(pre, pre.current_player.spec_other()),
    ensures
        tracks_all(post),
{
    let p = pre.current_player;
    let o = p.spec_other();
    let n = N as int;
    assert(n > 0);
    lemma_place_tracks(pre.board@, forest_of(pre, p), forest_of(post, p), n, p, x);
    assert forall|a: int| #[trigger] stone(pre.board@, n, o, a) <==> stone(post.board@, n, o, a) by {}
    assert forall|u: int, v: int|
        0 <= u < n * n + 2 && 0 <= v < n * n + 2 implies (#[trigger] same_set(forest_of(post, o), u, v)
        <==> #[trigger] connected(post.board@, n, o, u, v)) by {
        lemma_same_stones_connected(pre.board@, post.board@, n, o, u, v);
        if o == HexPlayer::Black {
            assert(same_set(pre.dsu_black@, u, v) <==> connected(pre.board@, n, o, u, v));
        } else {
            assert(same_set(pre.dsu_white@, u, v) <==> connected(pre.board@, n, o, u, v));
        }
    }
    if p == HexPlayer::Black {
        assert(tracks(post.dsu_black@, post.board@, n, HexPlayer::Black));
        assert(tracks(post.dsu_white@, post.board@, n, HexPlayer::White));
    } else {
        assert(tracks(post.dsu_white@, post.board@, n, HexPlayer::White));
        assert(tracks(post.dsu_black@, post.board@, n, HexPlayer::Black));
    }
}

/// A player has won (its two edge nodes share a set) exactly when a chain of
/// its stones joins its two edges, on every board whose forests describe it.
pub proof fn law_won_iff_connected<const N: usize>(st: HexState<N>, p: HexPlayer)
    requires
        st.wf(),
        tracks_all(st),
    ensures
        spec_is_won(st, p) <==> connected(st.board@, N as int, p, N * N, N * N + 1),
{
    let n = N as int;
    if p == HexPlayer::Black {
        assert(same_set(st.dsu_black@, n * n, n * n + 1) <==> connected(st.board@, n, p, n * n, n * n + 1));
    } else {
        assert(same_set(st.dsu_white@, n * n, n * n + 1) <==> connected(st.board@, n, p, n * n, n * n + 1));
    }
}


/// A lone stone has no friendly neighbours: its merge partners are the edges
/// it touches.
proof fn lemma_lone_stone_partners(board: Seq<Option<HexPlayer>>, n: int, p: HexPlayer, t: int)
    requires
        n > 0,
        board.len() == n * n,
        0 <= t < n * n,
        forall|i: int| 0 <= i < n * n && i != t ==> board[i] is None,
    ensures
        merge_partners(board, n, p, t) == edge_partners(n, p, t),
{
    let nbs = neighbor_cells(n, row_of(n, t), col_of(n, t));
    let f = friendly_neighbors(board, n, p, t, nbs.len() as int);
    if f.len() > 0 {
        let q = f[0];
        assert(f.contains(q));
        lemma_friendly_contains(board, n, p, t, nbs.len() as int, q);
        let j = choose|j: int| 0 <= j < nbs.len() && #[trigger] nb_index(n, nbs[j]) == q;
        lemma_neighbor_list(n, t, t);
        assert(0 <= q < n * n);
        assert(q == t);
        assert(adjacent(n, t, t));
    }
    assert(f =~= Seq::<int>::empty());
    assert(merge_partners(board, n, p, t) == edge_partners(n, p, t) + f);
}

/// The swap move on a board holding one stone leaves both forests
/// describing both players' connections.
pub proof fn lemma_swap_tracks<const N: usize>(pre: HexState<N>, post: HexState<N>, b: int, t: int)
    requires
        pre.wf(),
        post.wf(),
        0 <= b < N * N,
        0 <= t < N * N,
        forall|i: int| 0 <= i < N * N && i != b ==> pre.board@[i] is None,
        post.board@ == pre.board@.update(b, None).update(t, Some(HexPlayer::White)),
        rootmap(post.dsu_white@) == union_map_all(
            rootmap(singletons((N * N + 2) as nat)),
            t,
            edge_partners(N as int, HexPlayer::White, t),
        ),
        post.dsu_black@ == singletons((N * N + 2) as nat),
    ensures
        tracks_all(post),
{
    let n = N as int;
    let empty = pre.board@.update(b, None);
    let w = HexPlayer::White;
    assert(n * n + 2 <= 65536) by (nonlinear_arith)
        requires
            1 <= n <= 128,
    ;
    assert forall|a: int| !#[trigger] stone(empty, n, w, a) by {}
    assert forall|a: int| !#[trigger] stone(post.board@, n, HexPlayer::Black, a) by {}
    lemma_fresh_tracks(empty, n, w);
    lemma_fresh_tracks(post.board@, n, HexPlayer::Black);
    lemma_singletons((n * n + 2) as nat);
    lemma_lone_stone_partners(post.board@, n, w, t);
    lemma_place_tracks(empty, singletons((n * n + 2) as nat), post.dsu_white@, n, w, t);
}


/// An empty board whose forests are all singletons, before any move.
pub open spec fn fresh<const N: usize>(st: HexState<N>) -> bool {
    &&& st.board@ == Seq::new((N * N) as nat, |i: int| None::<HexPlayer>)
    &&& st.dsu_black@ == singletons((N * N + 2) as nat)
    &&& st.dsu_white@ == singletons((N * N + 2) as nat)
    &&& st.move_count == 0
}

/// `post` is `pre` after the player to move put a stone on the empty cell
/// `x`, merged as `play_move` merges it.
pub open spec fn placed<const N: usize>(pre: HexState<N>, post: HexState<N>, x: int) -> bool {
    let p = pre.current_player;
    &&& 0 <= x < N * N
    &&& pre.board@[x] is None
    &&& post.board@ == pre.board@.update(x, Some(p))
    &&& rootmap(forest_of(post, p)) == union_map_all(
        rootmap(forest_of(pre, p)),
        x,
        merge_partners(post.board@, N as int, p, x),
    )
    &&& forest_of(post, p.spec_other()) == forest_of(pre, p.spec_other())
    &&& post.move_count == pre.move_count + 1
}

/// `post` is `pre` after a legal swap move.
pub open spec fn swapped<const N: usize>(pre: HexState<N>, post: HexState<N>) -> bool {
    let b = first_stone(pre.board@, HexPlayer::Black, 0);
    let t = col_of(N as int, b) * N + row_of(N as int, b);
    &&& swap_available(pre)
    &&& b < N * N
    &&& post.board@ == pre.board@.update(b, None).update(t, Some(HexPlayer::White))
    &&& rootmap(post.dsu_white@) == union_map_all(
        rootmap(singletons((N * N + 2) as nat)),
        t,
        edge_partners(N as int, HexPlayer::White, t),
    )
    &&& post.dsu_black@ == singletons((N * N + 2) as nat)
    &&& post.move_count == pre.move_count + 1
}

/// `post` differs from `pre` at most in who moves next (and the swap flag).
pub open spec fn turn_set<const N: usize>(pre: HexState<N>, post: HexState<N>) -> bool {
    &&& post.board@ == pre.board@
    &&& post.dsu_black@ == pre.dsu_black@
    &&& post.dsu_white@ == pre.dsu_white@
    &&& post.move_count == pre.move_count
}

/// One step of play: a stone on an empty cell, a legal swap, or a change of
/// the player to move.
pub open spec fn hex_step<const N: usize>(pre: HexState<N>, post: HexState<N>) -> bool {
    ||| exists|x: int| #[trigger] placed(pre, post, x)
    ||| swapped(pre, post)
    ||| turn_set(pre, post)
}

/// A run of play from the empty board: well-formed states, each a step from
/// the one before.
pub open spec fn hex_run<const N: usize>(states: Seq<HexState<N>>) -> bool {
    &&& states.len() >= 1
    &&& fresh(states[0])
    &&& forall|i: int| 0 <= i < states.len() ==> (#[trigger] states[i]).wf()
    &&& forall|i: int| 0 <= i < states.len() - 1 ==> hex_step(#[trigger] states[i], states[i + 1])
}

/// The number of stones among the first `k` cells.
pub open spec fn stone_count(board: Seq<Option<HexPlayer>>, k: int) -> int
    decreases k,
{
    if k <= 0 {
        0
    } else {
        stone_count(board, k - 1) + (if board[k - 1] is Some { 1int } else { 0int })
    }
}

proof fn lemma_count_update(board: Seq<Option<HexPlayer>>, x: int, v: Option<HexPlayer>, k: int)
    requires
        0 <= x < board.len(),
        k <= board.len(),
    ensures
        stone_count(board.update(x, v), k) == stone_count(board, k) - (if 0 <= x < k && board[x] is Some {
            1int
        } else {
            0int
        }) + (if 0 <= x < k && v is Some {
            1int
        } else {
            0int
        }),
    decreases k,
{
    if k > 0 {
        lemma_count_update(board, x, v, k - 1);
    }
}

proof fn lemma_count_two(board: Seq<Option<HexPlayer>>, i: int, j: int, k: int)
    requires
        0 <= i < k,
        0 <= j < k,
        i != j,
        board[i] is Some,
        board[j] is Some,
    ensures
        stone_count(board, k) >= 2,
    decreases k,
{
    lemma_count_nonneg(board, k);
    if i == k - 1 {
        lemma_count_one(board, j, k - 1);
    } else if j == k - 1 {
        lemma_count_one(board, i, k - 1);
    } else {
        lemma_count_two(board, i, j, k - 1);
    }
}

proof fn lemma_count_one(board: Seq<Option<HexPlayer>>, i: int, k: int)
    requires
        0 <= i < k,
        board[i] is Some,
    ensures
        stone_count(board, k) >= 1,
    decreases k,
{
    lemma_count_nonneg(board, k - 1);
    if i < k - 1 {
        lemma_count_one(board, i, k - 1);
    }
}

proof fn lemma_count_nonneg(board: Seq<Option<HexPlayer>>, k: int)
    ensures
        stone_count(board, k) >= 0,
    decreases k,
{
    if k > 0 {
        lemma_count_nonneg(board, k - 1);
    }
}

proof fn lemma_count_empty(board: Seq<Option<HexPlayer>>, k: int)
    requires
        k <= board.len(),
        forall|i: int| 0 <= i < k ==> board[i] is None,
    ensures
        stone_count(board, k) == 0,
    decreases k,
{
    if k > 0 {
        lemma_count_empty(board, k - 1);
    }
}

proof fn lemma_first_stone_found(board: Seq<Option<HexPlayer>>, p: HexPlayer, k: int)
    requires
        0 <= k,
        first_stone(board, p, k) < board.len(),
    ensures
        k <= first_stone(board, p, k),
        board[first_stone(board, p, k)] == Some(p),
    decreases board.len() - k,
{
    if k < board.len() && board[k] != Some(p) {
        lemma_first_stone_found(board, p, k + 1);
    }
}

/// A step keeps both forests describing both players' connections, and keeps
/// the stones on the board no more than the moves made.
proof fn lemma_step_tracks<const N: usize>(pre: HexState<N>, st: HexState<N>)
    requires
        pre.wf(),
        st.wf(),
        tracks_all(pre),
        stone_count(pre.board@, N * N) <= pre.move_count,
        hex_step(pre, st),
    ensures
        tracks_all(st),
        stone_count(st.board@, N * N) <= st.move_count,
{
    let n = N as int;
    if exists|x: int| #[trigger] placed(pre, st, x) {
        let x = choose|x: int| #[trigger] placed(pre, st, x);
        lemma_play_tracks(pre, st, x);
        lemma_count_update(pre.board@, x, Some(pre.current_player), n * n);
    } else if swapped(pre, st) {
        lemma_swap_step(pre, st);
    }
}

proof fn lemma_swap_step<const N: usize>(pre: HexState<N>, st: HexState<N>)
    requires
        pre.wf(),
        st.wf(),
        stone_count(pre.board@, N * N) <= pre.move_count,
        swapped(pre, st),
    ensures
        tracks_all(st),
        stone_count(st.board@, N * N) <= st.move_count,
{
    let n = N as int;
    let b = first_stone(pre.board@, HexPlayer::Black, 0);
    let t = col_of(n, b) * n + row_of(n, b);
    lemma_first_stone_found(pre.board@, HexPlayer::Black, 0);
    assert forall|i: int| 0 <= i < n * n && i != b implies pre.board@[i] is None by {
        if pre.board@[i] is Some {
            lemma_count_two(pre.board@, i, b, n * n);
        }
    }
    lemma_cell_of(n, b);
    lemma_cell(n, col_of(n, b), row_of(n, b));
    lemma_swap_tracks(pre, st, b, t);
    let mid = pre.board@.update(b, None);
    lemma_count_update(pre.board@, b, None, n * n);
    lemma_count_update(mid, t, Some(HexPlayer::White), n * n);
}

/// Along a run, both forests describe both players' connections, and the
/// board holds no more stones than moves were made.
proof fn lemma_run_tracks<const N: usize>(states: Seq<HexState<N>>, k: int)
    requires
        hex_run(states),
        0 <= k < states.len(),
    ensures
        tracks_all(states[k]),
        stone_count(states[k].board@, N * N) <= states[k].move_count,
    decreases k,
{
    let n = N as int;
    let st = states[k];
    assert(st.wf());
    if k == 0 {
        assert(n * n + 2 <= 65536) by (nonlinear_arith)
            requires
                1 <= n <= 128,
        ;
        assert forall|a: int| !#[trigger] stone(st.board@, n, HexPlayer::Black, a) by {}
        assert forall|a: int| !#[trigger] stone(st.board@, n, HexPlayer::White, a) by {}
        lemma_fresh_tracks(st.board@, n, HexPlayer::Black);
        lemma_fresh_tracks(st.board@, n, HexPlayer::White);
        lemma_count_empty(st.board@, n * n);
    } else {
        lemma_run_tracks(states, k - 1);
        assert(hex_step(states[k - 1], states[k - 1 + 1]));
        assert(states[k - 1].wf());
        lemma_step_tracks(states[k - 1], states[k - 1 + 1]);
    }
}

/// In every state reached from the empty board by stones on empty cells,
/// legal swaps and changes of the player to move, a player has won exactly
/// when a chain of its stones, each next to the one before, joins its two
/// edges.
pub proof fn law_reachable_won_iff_connected<const N: usize>(states: Seq<HexState<N>>, p: HexPlayer)
    requires
        hex_run(states),
    ensures
        spec_is_won(states.last(), p) <==> connected(states.last().board@, N as int, p, N * N, N * N + 1),
{
    lemma_run_tracks(states, states.len() - 1);
    law_won_iff_connected(states.last(), p);
}

} // verus!
