//! Hex board state, disjoint-set connectivity tracking and move rules.
use crate::hex::dsu::{
    depth, find_root, forest, lemma_compress_forest, lemma_link_forest, lemma_root_of,
    lemma_singletons, lemma_step, reaches, root_of, rootmap, same_set, singletons, union_map,
    union_map_all,
};
use crate::hex::connect::{
    fresh, lemma_fresh_tracks, lemma_play_tracks, lemma_swap_tracks, placed, stone, swapped, tracks_all,
};
use crate::text::{
    chars_of, decimal, decimal_chars, extend_chars, extend_str, law_parse_decimal, lemma_decimal_digits,
    lemma_trim_unchanged, parse_usize, parse_usize_spec, is_space, is_space_char, string_of, trim,
    trim_chars,
};
use vstd::prelude::*;

verus! {

/// The two Hex players.
#[derive(Debug, Clone, Copy, PartialEq, Eq, Hash, Structural)]
pub enum HexPlayer {
    /// Connects the top edge to the bottom edge; moves first.
    Black,
    /// Connects the left edge to the right edge; moves second.
    White,
}

impl HexPlayer {
    pub open spec fn spec_other(self) -> HexPlayer {
        match self {
            HexPlayer::Black => HexPlayer::White,
            HexPlayer::White => HexPlayer::Black,
        }
    }

    /// The opponent.
    pub fn other(self) -> (o: Self)
        ensures
            o == self.spec_other(),
    {
        match self {
            HexPlayer::Black => HexPlayer::White,
            HexPlayer::White => HexPlayer::Black,
        }
    }

    /// 0 for Black, 1 for White.
    pub fn index(self) -> (i: usize)
        ensures
            i == (if self == HexPlayer::Black { 0usize } else { 1usize }),
    {
        match self {
            HexPlayer::Black => 0,
            HexPlayer::White => 1,
        }
    }

    /// The display name.
    pub fn name(self) -> (s: &'static str)
        ensures
            self == HexPlayer::Black ==> s@ == "Black"@,
            self == HexPlayer::White ==> s@ == "White"@,
    {
        match self {
            HexPlayer::Black => "Black",
            HexPlayer::White => "White",
        }
    }

    /// The board symbol: `'X'` for Black, `'O'` for White.
    pub fn char(self) -> (c: char)
        ensures
            c == (if self == HexPlayer::Black { 'X' } else { 'O' }),
    {
        match self {
            HexPlayer::Black => 'X',
            HexPlayer::White => 'O',
        }
    }

    /// The terminal colour escape: bold blue for Black, bold red for White.
    pub fn color_code(self) -> (s: &'static str)
        ensures
            self == HexPlayer::Black ==> s@ == "\x1b[1;34m"@,
            self == HexPlayer::White ==> s@ == "\x1b[1;31m"@,
    {
        match self {
            HexPlayer::Black => "\x1b[1;34m",
            HexPlayer::White => "\x1b[1;31m",
        }
    }
}

/// The state of an `N`-by-`N` Hex board.
///
/// Cells are stored row-major. Each player has a disjoint-set forest over the
/// `N * N` cells plus two edge nodes: `N * N` (top for Black, left for White)
/// and `N * N + 1` (bottom for Black, right for White).
#[derive(Debug, Clone, PartialEq, Eq)]
pub struct HexState<const N: usize> {
    /// Cell contents, `board[r * N + c]`.
    pub board: Vec<Option<HexPlayer>>,
    /// The player to move.
    pub current_player: HexPlayer,
    /// Black's connectivity forest.
    pub dsu_black: Vec<u16>,
    /// White's connectivity forest.
    pub dsu_white: Vec<u16>,
    /// Whether the swap (pie) rule is on.
    pub pie_rule: bool,
    /// Half-moves played so far.
    pub move_count: usize,
}

/// Row of a cell on an `n`-wide board.
pub open spec fn row_of(n: int, idx: int) -> int {
    idx / n
}

/// Column of a cell on an `n`-wide board.
pub open spec fn col_of(n: int, idx: int) -> int {
    idx % n
}

/// The neighbours of `(r, c)` that lie on an `n`-by-`n` board, in the order
/// of the offsets (-1,0), (-1,1), (0,-1), (0,1), (1,-1), (1,0).
pub open spec fn neighbor_cells(n: int, r: int, c: int) -> Seq<(int, int)> {
    let on = |a: int, b: int| 0 <= a < n && 0 <= b < n;
    let s0 = if on(r - 1, c) { seq![(r - 1, c)] } else { Seq::empty() };
    let s1 = if on(r - 1, c + 1) { s0.push((r - 1, c + 1)) } else { s0 };
    let s2 = if on(r, c - 1) { s1.push((r, c - 1)) } else { s1 };
    let s3 = if on(r, c + 1) { s2.push((r, c + 1)) } else { s2 };
    let s4 = if on(r + 1, c - 1) { s3.push((r + 1, c - 1)) } else { s3 };
    if on(r + 1, c) { s4.push((r + 1, c)) } else { s4 }
}

/// The connectivity forest of `p`.
pub open spec fn forest_of<const N: usize>(st: HexState<N>, p: HexPlayer) -> Seq<u16> {
    if p == HexPlayer::Black { st.dsu_black@ } else { st.dsu_white@ }
}

/// Whether `p` touches its first edge (top for Black, left for White) at `idx`.
pub open spec fn on_first_edge(n: int, p: HexPlayer, idx: int) -> bool {
    if p == HexPlayer::Black { row_of(n, idx) == 0 } else { col_of(n, idx) == 0 }
}

/// Whether `p` touches its second edge (bottom for Black, right for White) at `idx`.
pub open spec fn on_second_edge(n: int, p: HexPlayer, idx: int) -> bool {
    if p == HexPlayer::Black { row_of(n, idx) == n - 1 } else { col_of(n, idx) == n - 1 }
}

/// The neighbours of `idx` among the first `k` neighbour cells that hold a stone of `p`.
pub open spec fn friendly_neighbors(
    board: Seq<Option<HexPlayer>>,
    n: int,
    p: HexPlayer,
    idx: int,
    k: int,
) -> Seq<int>
    decreases k,
{
    if k <= 0 {
        Seq::empty()
    } else {
        let nb = neighbor_cells(n, row_of(n, idx), col_of(n, idx))[k - 1];
        let cell = nb.0 * n + nb.1;
        let rest = friendly_neighbors(board, n, p, idx, k - 1);
        if board[cell] == Some(p) { rest.push(cell) } else { rest }
    }
}

/// The edge nodes that a stone of `p` at `idx` touches: first edge, then second.
pub open spec fn edge_partners(n: int, p: HexPlayer, idx: int) -> Seq<int> {
    let e1: Seq<int> = if on_first_edge(n, p, idx) { seq![n * n] } else { Seq::empty() };
    if on_second_edge(n, p, idx) { e1.push(n * n + 1) } else { e1 }
}

/// The nodes that a stone of `p` placed at `idx` is merged with, in order:
/// the first edge, the second edge, then the friendly neighbours.
pub open spec fn merge_partners(board: Seq<Option<HexPlayer>>, n: int, p: HexPlayer, idx: int) -> Seq<
    int,
> {
    edge_partners(n, p, idx) + friendly_neighbors(
        board,
        n,
        p,
        idx,
        neighbor_cells(n, row_of(n, idx), col_of(n, idx)).len() as int,
    )
}

/// The first cell at or after `k` that holds a stone of `p` (or the length).
pub open spec fn first_stone(board: Seq<Option<HexPlayer>>, p: HexPlayer, k: int) -> int
    decreases board.len() - k,
{
    if k >= board.len() || k < 0 {
        board.len() as int
    } else if board[k] == Some(p) {
        k
    } else {
        first_stone(board, p, k + 1)
    }
}

/// The board holds no stone but the first black one.
pub open spec fn lone_stone(board: Seq<Option<HexPlayer>>) -> bool {
    forall|i: int| 0 <= i < board.len() && i != first_stone(board, HexPlayer::Black, 0) ==> board[i] is None
}

/// Whether the swap move is available.
pub open spec fn swap_available<const N: usize>(st: HexState<N>) -> bool {
    st.pie_rule && st.move_count == 1 && st.current_player == HexPlayer::White
}

/// Whether `p` has joined its two edges.
pub open spec fn spec_is_won<const N: usize>(st: HexState<N>, p: HexPlayer) -> bool {
    same_set(forest_of(st, p), N * N, N * N + 1)
}

/// The empty cells among the first `k`, in order.
pub open spec fn empty_cells(board: Seq<Option<HexPlayer>>, k: int) -> Seq<usize>
    decreases k,
{
    if k <= 0 {
        Seq::empty()
    } else {
        let rest = empty_cells(board, k - 1);
        if board[k - 1] is None { rest.push((k - 1) as usize) } else { rest }
    }
}

/// The empty cells in order, followed by the swap move when it is available.
pub open spec fn legal_moves<const N: usize>(st: HexState<N>) -> Seq<usize> {
    let cells = empty_cells(st.board@, N * N);
    if swap_available(st) { cells.push((N * N) as usize) } else { cells }
}

/// Row and column of a cell are on the board and give the cell back.
pub proof fn lemma_cell_of(n: int, b: int)
    requires
        0 < n,
        0 <= b < n * n,
    ensures
        0 <= b / n < n,
        0 <= b % n < n,
        b == (b / n) * n + b % n,
{
    vstd::arithmetic::div_mod::lemma_fundamental_div_mod(b, n);
    vstd::arithmetic::mul::lemma_mul_is_commutative(n, b / n);
    assert(0 <= b / n < n) by (nonlinear_arith)
        requires
            0 < n,
            0 <= b < n * n,
            b == n * (b / n) + b % n,
            0 <= b % n < n,
    ;
}

/// Every listed neighbour lies on the board.
pub proof fn lemma_neighbors_on_board(n: int, r: int, c: int, k: int)
    requires
        0 <= k < neighbor_cells(n, r, c).len(),
    ensures
        0 <= neighbor_cells(n, r, c)[k].0 < n,
        0 <= neighbor_cells(n, r, c)[k].1 < n,
{
}

/// Merging with one more partner.
pub proof fn lemma_union_all_push(m: Seq<int>, x: int, ps: Seq<int>, p: int)
    ensures
        union_map_all(m, x, ps.push(p)) == union_map(union_map_all(m, x, ps), x, p),
{
    assert(ps.push(p).drop_last() =~= ps);
}

/// Cell arithmetic on an `n`-wide board.
pub proof fn lemma_cell(n: int, r: int, c: int)
    requires
        0 <= r < n,
        0 <= c < n,
    ensures
        (r * n + c) / n == r,
        (r * n + c) % n == c,
        0 <= r * n + c < n * n,
{
    assert(0 <= r * n + c < n * n) by (nonlinear_arith)
        requires
            0 <= r < n,
            0 <= c < n,
    ;
    vstd::arithmetic::div_mod::lemma_fundamental_div_mod_converse(r * n + c, n, r, c);
}


/// Flat indices and (row, column) pairs of an `n`-by-`n` board correspond
/// one to one: index `r * n + c` lies on the board and has row `r` and
/// column `c`, and every index `i` of the board is its row times `n` plus
/// its column, both on the board.
pub proof fn law_index_roundtrip(n: int, r: int, c: int, i: int)
    requires
        1 <= n,
        0 <= r < n,
        0 <= c < n,
        0 <= i < n * n,
    ensures
        0 <= r * n + c < n * n,
        row_of(n, r * n + c) == r,
        col_of(n, r * n + c) == c,
        0 <= row_of(n, i) < n,
        0 <= col_of(n, i) < n,
        row_of(n, i) * n + col_of(n, i) == i,
{
    lemma_cell(n, r, c);
    lemma_cell_of(n, i);
}

/// ASCII letters.
pub open spec fn is_ascii_alpha(c: char) -> bool {
    ('A' <= c && c <= 'Z') || ('a' <= c && c <= 'z')
}

/// ASCII upper-casing (`char::to_ascii_uppercase`).
pub open spec fn ascii_upper(c: char) -> char {
    if 'a' <= c && c <= 'z' { ((c as int) - 32) as char } else { c }
}

/// Equality up to ASCII case (`str::eq_ignore_ascii_case`).
pub open spec fn eq_ignore_ascii_case(a: Seq<char>, b: Seq<char>) -> bool {
    a.len() == b.len() && forall|i: int| 0 <= i < a.len() ==> ascii_upper(#[trigger] a[i]) == ascii_upper(b[i])
}

/// The first position at or after `k` of a whitespace or `,` character (or the length).
pub open spec fn first_separator(t: Seq<char>, k: int) -> int
    decreases t.len() - k,
{
    if k >= t.len() || k < 0 {
        t.len() as int
    } else if is_space(t[k]) || t[k] == ',' {
        k
    } else {
        first_separator(t, k + 1)
    }
}

/// The name of a move: `swap` for the swap index, else the column letter
/// (`A` for column 0) followed by the row number counted from 1.
pub open spec fn coord_name(n: int, idx: int) -> Seq<char> {
    if idx == n * n {
        "swap"@
    } else {
        seq![(65 + idx % n) as char] + decimal((idx / n + 1) as nat)
    }
}

/// A flat index given as a number, if it is a cell.
pub open spec fn parse_raw_index(n: int, t: Seq<char>) -> Option<usize> {
    match parse_usize_spec(t) {
        Some(i) => if i < n * n { Some(i) } else { None },
        None => None,
    }
}

/// The move named by `s`: `swap` in any case; a column letter and a row
/// number (`A1`, `k11`); a row and a column separated by whitespace or a
/// comma (`4 4`, `2,3`); or a flat cell index. Surrounding whitespace is
/// ignored.
pub open spec fn parse_coord(n: int, s: Seq<char>) -> Option<usize> {
    let t = trim(s);
    if t.len() == 0 {
        None
    } else if eq_ignore_ascii_case(t, "swap"@) {
        Some((n * n) as usize)
    } else if is_ascii_alpha(t[0]) {
        let col = ascii_upper(t[0]) as int - 'A' as int;
        match parse_usize_spec(trim(t.drop_first())) {
            Some(row) => if 1 <= row <= n && col < n {
                Some(((row - 1) * n + col) as usize)
            } else {
                None
            },
            None => None,
        }
    } else {
        let k = first_separator(t, 0);
        if k < t.len() {
            match (parse_usize_spec(trim(t.take(k))), parse_usize_spec(trim(t.skip(k + 1)))) {
                (Some(r), Some(c)) => if r < n && c < n {
                    Some((r * n + c) as usize)
                } else {
                    parse_raw_index(n, t)
                },
                _ => None,
            }
        } else {
            parse_raw_index(n, t)
        }
    }
}

/// A board of side at most 128 has at most 16384 cells.
pub proof fn lemma_board_size(n: int)
    requires
        0 <= n <= 128,
    ensures
        0 <= n * n <= 16384,
{
    assert(0 <= n * n <= 16384) by (nonlinear_arith)
        requires
            0 <= n <= 128,
    ;
}

impl<const N: usize> HexState<N> {
    /// The move index that invokes the swap rule: one past the last cell.
    pub fn swap_action() -> (a: usize)
        requires
            N <= 128,
        ensures
            a == N * N,
    {
        proof {
            lemma_board_size(N as int);
        }
        N * N
    }

    /// The state invariant: board and forests have the right sizes, and both
    /// forests are well formed.
    pub open spec fn wf(self) -> bool {
        &&& 1 <= N <= 128
        &&& self.board@.len() == N * N
        &&& self.dsu_black@.len() == N * N + 2
        &&& self.dsu_white@.len() == N * N + 2
        &&& forest(self.dsu_black@)
        &&& forest(self.dsu_white@)
    }

    /// An empty board with Black to move and the swap rule off.
    pub fn new() -> (st: Self)
        requires
            1 <= N <= 128,
        ensures
            st.wf(),
            st.board@ == Seq::new((N * N) as nat, |i: int| None::<HexPlayer>),
            st.current_player == HexPlayer::Black,
            st.dsu_black@ == singletons((N * N + 2) as nat),
            st.dsu_white@ == singletons((N * N + 2) as nat),
            !st.pie_rule,
            st.move_count == 0,
            tracks_all(st),
            fresh(st),
    {
        proof {
            lemma_board_size(N as int);
        }
        let size: usize = N * N + 2;
        let dsu_black = Self::identity_forest(size);
        let dsu_white = Self::identity_forest(size);
        let mut board: Vec<Option<HexPlayer>> = Vec::new();
        let mut i: usize = 0;
        while i < N * N
            invariant
                1 <= N <= 128,
                N * N <= 16384,
                i <= N * N,
                board@ == Seq::new(i as nat, |j: int| None::<HexPlayer>),
            decreases N * N - i,
        {
            board.push(None);
            i = i + 1;
        }
        proof {
            lemma_singletons(size as nat);
            let n = N as int;
            assert forall|a: int| !#[trigger] stone(board@, n, HexPlayer::Black, a) by {}
            assert forall|a: int| !#[trigger] stone(board@, n, HexPlayer::White, a) by {}
            lemma_fresh_tracks(board@, n, HexPlayer::Black);
            lemma_fresh_tracks(board@, n, HexPlayer::White);
        }
        HexState {
            board,
            current_player: HexPlayer::Black,
            dsu_black,
            dsu_white,
            pie_rule: false,
            move_count: 0,
        }
    }

    /// The forest of `size` singletons.
    fn identity_forest(size: usize) -> (v: Vec<u16>)
        requires
            size <= 65536,
        ensures
            v@ == singletons(size as nat),
    {
        let mut v: Vec<u16> = Vec::new();
        let mut i: usize = 0;
        while i < size
            invariant
                i <= size <= 65536,
                v@ == singletons(i as nat),
            decreases size - i,
        {
            v.push(i as u16);
            i = i + 1;
        }
        v
    }

    /// An empty board with the swap rule set as given.
    pub fn with_pie_rule(pie_rule: bool) -> (st: Self)
        requires
            1 <= N <= 128,
        ensures
            st.wf(),
            st.board@ == Seq::new((N * N) as nat, |i: int| None::<HexPlayer>),
            st.current_player == HexPlayer::Black,
            st.dsu_black@ == singletons((N * N + 2) as nat),
            st.dsu_white@ == singletons((N * N + 2) as nat),
            st.pie_rule == pie_rule,
            st.move_count == 0,
            fresh(st),
    {
        let mut s = Self::new();
        s.pie_rule = pie_rule;
        s
    }

    /// The board dimension.
    pub fn size(&self) -> (n: usize)
        ensures
            n == N,
    {
        N
    }

    /// Flat index of `(r, c)`.
    pub fn idx(r: usize, c: usize) -> (i: usize)
        requires
            r * N + c <= usize::MAX,
        ensures
            i == r * N + c,
    {
        proof {
            assert(r * N <= r * N + c);
        }
        r * N + c
    }

    /// Row and column of a flat index.
    pub fn coord(idx: usize) -> (rc: (usize, usize))
        requires
            N > 0,
        ensures
            rc.0 == idx / N,
            rc.1 == idx % N,
    {
        (idx / N, idx % N)
    }

    /// The on-board neighbours of `(r, c)` on the hexagonal lattice, in the
    /// order of the offsets (-1,0), (-1,1), (0,-1), (0,1), (1,-1), (1,0).
    pub fn neighbors(r: usize, c: usize) -> (out: Vec<(usize, usize)>)
        ensures
            out@.len() == neighbor_cells(N as int, r as int, c as int).len(),
            forall|k: int|
                0 <= k < out@.len() ==> (#[trigger] out@[k]).0 == neighbor_cells(N as int, r as int, c as int)[k].0
                    && out@[k].1 == neighbor_cells(N as int, r as int, c as int)[k].1,
    {
        let ghost n = N as int;
        let ghost ri = r as int;
        let ghost ci = c as int;
        let mut out: Vec<(usize, usize)> = Vec::new();
        let up = r >= 1 && r - 1 < N;
        let same = r < N;
        let down = r < N && r + 1 < N;
        let left = c >= 1 && c - 1 < N;
        let mid = c < N;
        let right = c < N && c + 1 < N;
        if up && mid {
            out.push((r - 1, c));
        }
        if up && right {
            out.push((r - 1, c + 1));
        }
        if same && left {
            out.push((r, c - 1));
        }
        if same && right {
            out.push((r, c + 1));
        }
        if down && left {
            out.push((r + 1, c - 1));
        }
        if down && mid {
            out.push((r + 1, c));
        }
        proof {
            let on = |a: int, b: int| 0 <= a < n && 0 <= b < n;
            let s0 = if on(ri - 1, ci) { seq![(ri - 1, ci)] } else { Seq::<(int, int)>::empty() };
            let s1 = if on(ri - 1, ci + 1) { s0.push((ri - 1, ci + 1)) } else { s0 };
            let s2 = if on(ri, ci - 1) { s1.push((ri, ci - 1)) } else { s1 };
            let s3 = if on(ri, ci + 1) { s2.push((ri, ci + 1)) } else { s2 };
            let s4 = if on(ri + 1, ci - 1) { s3.push((ri + 1, ci - 1)) } else { s3 };
            let s5 = if on(ri + 1, ci) { s4.push((ri + 1, ci)) } else { s4 };
            assert(s5 == neighbor_cells(n, ri, ci));
            assert(out@.len() == s5.len());
        }
        out
    }

    /// The root of `x`'s set, compressing the path from `x` on the way: every
    /// node keeps its root, and `x` ends up pointing straight at it. The
    /// nodes on the parent chain from `x` to the root now point at the root;
    /// every other entry keeps its parent.
    #[verifier::rlimit(40)]
    pub fn dsu_find(dsu: &mut [u16], x: usize) -> (root: usize)
        requires
            forest(old(dsu)@),
            x < old(dsu)@.len(),
        ensures
            root == root_of(old(dsu)@, x as int),
            final(dsu)@.len() == old(dsu)@.len(),
            forest(final(dsu)@),
            forall|i: int| 0 <= i < old(dsu)@.len() ==> #[trigger] root_of(final(dsu)@, i) == root_of(old(dsu)@, i),
            final(dsu)@[x as int] == root,
            exists|path: Seq<int>|
                {
                    &&& path.len() >= 1
                    &&& path[0] == x
                    &&& path.last() == root
                    &&& forall|k: int|
                        #![trigger path[k]]
                        0 <= k < path.len() - 1 ==> old(dsu)@[path[k]] as int == path[k + 1] && old(dsu)@[path[k]]
                            as int != path[k]
                    &&& forall|i: int|
                        0 <= i < old(dsu)@.len() ==> #[trigger] final(dsu)@[i] == if path.contains(i) {
                            root as u16
                        } else {
                            old(dsu)@[i]
                        }
                },
    {
        let ghost s0 = dsu@;
        let ghost n0 = s0.len();
        let mut root = x;
        let ghost mut path: Seq<int> = seq![x as int];
        while root != dsu[root] as usize
            invariant
                dsu@ == s0,
                n0 == s0.len(),
                forest(s0),
                root < s0.len(),
                root_of(s0, root as int) == root_of(s0, x as int),
                path.len() >= 1,
                path[0] == x,
                path.last() == root,
                forall|k: int| #![trigger path[k]] 0 <= k < path.len() ==> 0 <= path[k] < s0.len(),
                forall|k: int|
                    #![trigger path[k]]
                    0 <= k < path.len() - 1 ==> s0[path[k]] as int == path[k + 1] && s0[path[k]] as int != path[k],
                forall|k: int|
                    #![trigger path[k]]
                    0 <= k < path.len() ==> depth(s0, path[k], n0) == depth(s0, root as int, n0) + (path.len() - 1
                        - k),
            decreases depth(s0, root as int, s0.len()),
        {
            proof {
                lemma_step(s0, root as int);
            }
            let ghost old_path = path;
            root = dsu[root] as usize;
            proof {
                path = path.push(root as int);
                assert forall|k: int| #![trigger path[k]] 0 <= k < path.len() - 1 implies s0[path[k]] as int
                    == path[k + 1] && s0[path[k]] as int != path[k] by {
                    if k < old_path.len() - 1 {
                        assert(old_path[k] == path[k] && old_path[k + 1] == path[k + 1]);
                    }
                }
                assert forall|k: int| #![trigger path[k]] 0 <= k < path.len() implies depth(s0, path[k], n0)
                    == depth(s0, root as int, n0) + (path.len() - 1 - k) by {
                    if k < old_path.len() {
                        assert(old_path[k] == path[k]);
                    }
                }
            }
        }
        proof {
            lemma_root_of(s0, root as int);
        }
        let mut curr = x;
        let ghost mut j: int = 0;
        while curr != root
            invariant
                forest(dsu@),
                dsu@.len() == s0.len(),
                n0 == s0.len(),
                forall|i: int| 0 <= i < s0.len() ==> #[trigger] root_of(dsu@, i) == root_of(s0, i),
                root == root_of(s0, x as int),
                root < s0.len(),
                s0[root as int] as int == root,
                curr < s0.len(),
                x < s0.len(),
                root_of(dsu@, curr as int) == root,
                curr == x || dsu@[x as int] == root,
                path.len() >= 1,
                path[0] == x,
                path.last() == root,
                0 <= j < path.len(),
                curr == path[j],
                forall|k: int| #![trigger path[k]] 0 <= k < path.len() ==> 0 <= path[k] < s0.len(),
                forall|k: int|
                    #![trigger path[k]]
                    0 <= k < path.len() - 1 ==> s0[path[k]] as int == path[k + 1] && s0[path[k]] as int != path[k],
                forall|k: int|
                    #![trigger path[k]]
                    0 <= k < path.len() ==> depth(s0, path[k], n0) == depth(s0, root as int, n0) + (path.len() - 1
                        - k),
                forall|i: int|
                    0 <= i < s0.len() ==> #[trigger] dsu@[i] == if path.subrange(0, j).contains(i) {
                        root as u16
                    } else {
                        s0[i]
                    },
            decreases path.len() - j,
        {
            let ghost s = dsu@;
            proof {
                lemma_root_of(s, curr as int);
                lemma_root_of(s, root as int);
                if j == path.len() - 1 {
                    assert(path[j] == root);
                }
                assert(!path.subrange(0, j).contains(curr as int)) by {
                        let sub0 = path.subrange(0, j);
                    if sub0.contains(curr as int) {
                        let k = choose|k: int| 0 <= k < sub0.len() && sub0[k] == curr as int;
                        assert(path[k] == path[j]);
                    }
                }
                assert(s[curr as int] == s0[curr as int]);
                lemma_step(s, curr as int);
                lemma_compress_forest(s, curr as int);
            }
            let next = dsu[curr] as usize;
            dsu[curr] = root as u16;
            proof {
                assert(dsu@ == s.update(curr as int, root_of(s, curr as int) as u16));
                assert(root <= 65535);
                if curr == x {
                    assert(dsu@[x as int] == root as u16);
                } else {
                    assert(dsu@[x as int] == s[x as int]);
                }
                assert(dsu@[x as int] == root);
                assert forall|i: int| 0 <= i < s0.len() implies #[trigger] dsu@[i] == if path.subrange(
                    0,
                    j + 1,
                ).contains(i) {
                    root as u16
                } else {
                    s0[i]
                } by {
                    let sub0 = path.subrange(0, j);
                    let sub1 = path.subrange(0, j + 1);
                    if sub1.contains(i) && i != curr {
                        let k = choose|k: int| 0 <= k < sub1.len() && sub1[k] == i;
                        assert(sub0[k] == i);
                    }
                    if sub0.contains(i) {
                        let k = choose|k: int| 0 <= k < sub0.len() && sub0[k] == i;
                        assert(sub1[k] == i);
                    }
                    if i == curr {
                        assert(sub1[j] == i);
                    }
                }
                j = j + 1;
            }
            curr = next;
        }
        proof {
            if curr == x {
                lemma_root_of(dsu@, root as int);
                lemma_root_of(s0, x as int);
                assert(root_of(dsu@, root as int) == root);
            }
            assert(j == path.len() - 1) by {
                if j < path.len() - 1 {
                    assert(depth(s0, path[j], n0) > depth(s0, path[path.len() - 1], n0));
                }
            }
            assert forall|i: int| 0 <= i < s0.len() implies #[trigger] dsu@[i] == if path.contains(i) {
                root as u16
            } else {
                s0[i]
            } by {
                let sub0 = path.subrange(0, j);
                if path.contains(i) && !sub0.contains(i) {
                    let k = choose|k: int| 0 <= k < path.len() && path[k] == i;
                    if k < j {
                        assert(sub0[k] == i);
                    }
                    assert(i == root);
                }
                if sub0.contains(i) {
                    let k = choose|k: int| 0 <= k < sub0.len() && sub0[k] == i;
                    assert(path[k] == i);
                    assert(path[k] != root) by {
                        assert(depth(s0, path[k], n0) > depth(s0, path[path.len() - 1], n0));
                    }
                }
            }
        }
        root
    }

    /// Merges the sets of `x` and `y`: every node of `x`'s set takes the root
    /// of `y`'s set, and every other node keeps its root.
    pub fn dsu_union(dsu: &mut [u16], x: usize, y: usize)
        requires
            forest(old(dsu)@),
            x < old(dsu)@.len(),
            y < old(dsu)@.len(),
        ensures
            final(dsu)@.len() == old(dsu)@.len(),
            forest(final(dsu)@),
            forall|i: int|
                0 <= i < old(dsu)@.len() ==> #[trigger] root_of(final(dsu)@, i) == if same_set(
                    old(dsu)@,
                    i,
                    x as int,
                ) {
                    root_of(old(dsu)@, y as int)
                } else {
                    root_of(old(dsu)@, i)
                },
    {
        let ghost s0 = dsu@;
        let rx = Self::dsu_find(dsu, x);
        let ry = Self::dsu_find(dsu, y);
        let ghost s1 = dsu@;
        proof {
            lemma_root_of(s0, x as int);
            lemma_root_of(s0, y as int);
            lemma_root_of(s1, rx as int);
            lemma_root_of(s1, ry as int);
        }
        if rx != ry {
            dsu[rx] = ry as u16;
            proof {
                lemma_link_forest(s1, rx as int, ry as int);
                assert(dsu@ == s1.update(rx as int, ry as u16));
            }
        }
    }

    /// The root of `x` in `player`'s forest, compressing paths.
    pub fn find(&mut self, player: HexPlayer, x: usize) -> (root: usize)
        requires
            old(self).wf(),
            x < N * N + 2,
        ensures
            final(self).wf(),
            root == root_of(forest_of(*old(self), player), x as int),
            rootmap(forest_of(*final(self), player)) == rootmap(forest_of(*old(self), player)),
            forest_of(*final(self), player.spec_other()) == forest_of(*old(self), player.spec_other()),
            final(self).board == old(self).board,
            final(self).current_player == old(self).current_player,
            final(self).pie_rule == old(self).pie_rule,
            final(self).move_count == old(self).move_count,
    {
        let r = match player {
            HexPlayer::Black => Self::dsu_find(self.dsu_black.as_mut_slice(), x),
            HexPlayer::White => Self::dsu_find(self.dsu_white.as_mut_slice(), x),
        };
        proof {
            assert(rootmap(forest_of(*self, player)) =~= rootmap(forest_of(*old(self), player)));
        }
        r
    }

    /// Merges the sets of `x` and `y` in `player`'s forest.
    pub fn union(&mut self, player: HexPlayer, x: usize, y: usize)
        requires
            old(self).wf(),
            x < N * N + 2,
            y < N * N + 2,
        ensures
            final(self).wf(),
            rootmap(forest_of(*final(self), player)) == union_map(
                rootmap(forest_of(*old(self), player)),
                x as int,
                y as int,
            ),
            forest_of(*final(self), player.spec_other()) == forest_of(*old(self), player.spec_other()),
            final(self).board == old(self).board,
            final(self).current_player == old(self).current_player,
            final(self).pie_rule == old(self).pie_rule,
            final(self).move_count == old(self).move_count,
    {
        match player {
            HexPlayer::Black => Self::dsu_union(self.dsu_black.as_mut_slice(), x, y),
            HexPlayer::White => Self::dsu_union(self.dsu_white.as_mut_slice(), x, y),
        };
        proof {
            assert(rootmap(forest_of(*self, player)) =~= union_map(
                rootmap(forest_of(*old(self), player)),
                x as int,
                y as int,
            ));
        }
    }

    /// Whether `player` has joined their two edges (no path compression).
    pub fn is_won(&self, player: HexPlayer) -> (won: bool)
        requires
            self.wf(),
        ensures
            won == spec_is_won(*self, player),
    {
        proof {
            lemma_board_size(N as int);
        }
        let dsu = match player {
            HexPlayer::Black => &self.dsu_black,
            HexPlayer::White => &self.dsu_white,
        };
        let r1 = Self::walk_to_root(dsu, N * N);
        let r2 = Self::walk_to_root(dsu, N * N + 1);
        r1 == r2
    }

    /// Follows parents from `x` to its root without changing anything.
    fn walk_to_root(dsu: &Vec<u16>, x: usize) -> (root: usize)
        requires
            forest(dsu@),
            x < dsu@.len(),
        ensures
            root == root_of(dsu@, x as int),
    {
        let mut root = x;
        while root != dsu[root] as usize
            invariant
                forest(dsu@),
                root < dsu@.len(),
                root_of(dsu@, root as int) == root_of(dsu@, x as int),
            decreases depth(dsu@, root as int, dsu@.len()),
        {
            proof {
                lemma_step(dsu@, root as int);
            }
            root = dsu[root] as usize;
        }
        proof {
            lemma_root_of(dsu@, root as int);
        }
        root
    }

    /// Whether `player` has joined their two edges, compressing paths.
    pub fn check_win(&mut self, player: HexPlayer) -> (won: bool)
        requires
            old(self).wf(),
        ensures
            final(self).wf(),
            won == spec_is_won(*old(self), player),
            rootmap(forest_of(*final(self), player)) == rootmap(forest_of(*old(self), player)),
            forest_of(*final(self), player.spec_other()) == forest_of(*old(self), player.spec_other()),
            final(self).board == old(self).board,
            final(self).current_player == old(self).current_player,
            final(self).pie_rule == old(self).pie_rule,
            final(self).move_count == old(self).move_count,
    {
        proof {
            lemma_board_size(N as int);
        }
        let a = self.find(player, N * N);
        let b = self.find(player, N * N + 1);
        proof {
            let m0 = rootmap(forest_of(*old(self), player));
            assert(m0[(N * N) as int] == a);
            assert(m0[(N * N + 1) as int] == b);
        }
        a == b
    }

    /// Applies the swap rule on move 2: the single Black stone is removed and
    /// a White stone is put on the mirrored cell `(c, r)`; Black's forest is
    /// reset, and White's is reset and then joined to White's edges where the
    /// new stone touches them. Black moves next.
    pub fn play_swap(&mut self)
        requires
            old(self).wf(),
            swap_available(*old(self)),
            first_stone(old(self).board@, HexPlayer::Black, 0) < N * N,
        ensures
            final(self).wf(),
            ({
                let b = first_stone(old(self).board@, HexPlayer::Black, 0);
                let t = col_of(N as int, b) * N + row_of(N as int, b);
                &&& final(self).board@ == old(self).board@.update(b, None).update(t, Some(HexPlayer::White))
                &&& rootmap(final(self).dsu_white@) == union_map_all(
                    rootmap(singletons((N * N + 2) as nat)),
                    t,
                    edge_partners(N as int, HexPlayer::White, t),
                )
            }),
            final(self).dsu_black@ == singletons((N * N + 2) as nat),
            final(self).current_player == HexPlayer::Black,
            final(self).move_count == old(self).move_count + 1,
            final(self).pie_rule == old(self).pie_rule,
            lone_stone(old(self).board@) ==> tracks_all(*final(self)),
            swapped(*old(self), *final(self)),
    {
        proof {
            lemma_board_size(N as int);
        }
        let mut black_idx: usize = 0;
        while black_idx < N * N && self.board[black_idx] != Some(HexPlayer::Black)
            invariant
                self.wf(),
                N * N <= 16384,
                black_idx <= N * N,
                first_stone(self.board@, HexPlayer::Black, 0) == first_stone(
                    self.board@,
                    HexPlayer::Black,
                    black_idx as int,
                ),
            decreases N * N - black_idx,
        {
            black_idx = black_idx + 1;
        }
        let ghost b = black_idx as int;
        proof {
            assert(first_stone(self.board@, HexPlayer::Black, b) == b);
            lemma_cell_of(N as int, b);
        }
        let (r, c) = Self::coord(black_idx);
        proof {
            lemma_cell(N as int, r as int, c as int);
            lemma_cell(N as int, c as int, r as int);
            vstd::arithmetic::div_mod::lemma_fundamental_div_mod(b, N as int);
        }
        self.board.set(black_idx, None);
        let transposed = Self::idx(c, r);
        self.board.set(transposed, Some(HexPlayer::White));
        let size: usize = N * N + 2;
        self.dsu_black = Self::identity_forest(size);
        self.dsu_white = Self::identity_forest(size);
        proof {
            lemma_singletons(size as nat);
        }
        let ghost m0 = rootmap(singletons(size as nat));
        let ghost t = transposed as int;
        assert(rootmap(self.dsu_white@) == union_map_all(m0, t, Seq::<int>::empty()));
        if r == 0 {
            self.union(HexPlayer::White, transposed, N * N);
            proof {
                lemma_union_all_push(m0, t, Seq::<int>::empty(), (N * N) as int);
                assert(Seq::<int>::empty().push((N * N) as int) =~= seq![(N * N) as int]);
            }
        }
        let ghost e1: Seq<int> = if r == 0 { seq![(N * N) as int] } else { Seq::empty() };
        assert(rootmap(self.dsu_white@) == union_map_all(m0, t, e1));
        if r == N - 1 {
            self.union(HexPlayer::White, transposed, N * N + 1);
            proof {
                lemma_union_all_push(m0, t, e1, (N * N + 1) as int);
            }
        }
        proof {
            assert(col_of(N as int, t) == r);
            assert(edge_partners(N as int, HexPlayer::White, t) == (if r == N - 1 {
                e1.push((N * N + 1) as int)
            } else {
                e1
            }));
        }
        self.current_player = HexPlayer::Black;
        self.move_count = self.move_count + 1;
        proof {
            if lone_stone(old(self).board@) {
                lemma_swap_tracks(*old(self), *self, b, t);
            }
        }
    }

    /// Plays `idx` for the player to move: the swap move when `idx` is the
    /// swap index, else a stone of the current player on cell `idx`, merged
    /// with the edges it touches and with the friendly stones around it.
    /// The player to move does not change. Returns whether the stone wins.
    pub fn play_move(&mut self, idx: usize) -> (won: bool)
        requires
            old(self).wf(),
            idx <= N * N,
            idx == N * N ==> swap_available(*old(self)) && first_stone(old(self).board@, HexPlayer::Black, 0)
                < N * N,
            old(self).move_count < usize::MAX,
        ensures
            final(self).wf(),
            final(self).move_count == old(self).move_count + 1,
            final(self).pie_rule == old(self).pie_rule,
            idx == N * N ==> !won && ({
                let b = first_stone(old(self).board@, HexPlayer::Black, 0);
                let t = col_of(N as int, b) * N + row_of(N as int, b);
                &&& final(self).board@ == old(self).board@.update(b, None).update(t, Some(HexPlayer::White))
                &&& rootmap(final(self).dsu_white@) == union_map_all(
                    rootmap(singletons((N * N + 2) as nat)),
                    t,
                    edge_partners(N as int, HexPlayer::White, t),
                )
                &&& final(self).dsu_black@ == singletons((N * N + 2) as nat)
                &&& final(self).current_player == HexPlayer::Black
            }),
            idx < N * N ==> ({
                let p = old(self).current_player;
                &&& final(self).board@ == old(self).board@.update(idx as int, Some(p))
                &&& final(self).current_player == p
                &&& rootmap(forest_of(*final(self), p)) == union_map_all(
                    rootmap(forest_of(*old(self), p)),
                    idx as int,
                    merge_partners(final(self).board@, N as int, p, idx as int),
                )
                &&& forest_of(*final(self), p.spec_other()) == forest_of(*old(self), p.spec_other())
                &&& won == spec_is_won(*final(self), p)
            }),
            idx < N * N && old(self).board@[idx as int] is None && tracks_all(*old(self)) ==> tracks_all(
                *final(self),
            ),
            idx == N * N && lone_stone(old(self).board@) ==> tracks_all(*final(self)),
            idx < N * N && old(self).board@[idx as int] is None ==> placed(*old(self), *final(self), idx as int),
            idx == N * N ==> swapped(*old(self), *final(self)),
    {
        proof {
            lemma_board_size(N as int);
        }
        if idx == N * N {
            self.play_swap();
            return false;
        }
        self.move_count = self.move_count + 1;
        let player = self.current_player;
        self.board.set(idx, Some(player));
        let (r, c) = Self::coord(idx);
        let ghost board1 = self.board@;
        let ghost m0 = rootmap(forest_of(*self, player));
        let ghost x = idx as int;
        let ghost n = N as int;
        assert(rootmap(forest_of(*self, player)) == union_map_all(m0, x, Seq::<int>::empty()));
        let first = match player {
            HexPlayer::Black => r == 0,
            HexPlayer::White => c == 0,
        };
        let second = match player {
            HexPlayer::Black => r == N - 1,
            HexPlayer::White => c == N - 1,
        };
        if first {
            self.union(player, idx, N * N);
            proof {
                lemma_union_all_push(m0, x, Seq::<int>::empty(), n * n);
                assert(Seq::<int>::empty().push(n * n) =~= seq![n * n]);
            }
        }
        let ghost e1: Seq<int> = if first { seq![n * n] } else { Seq::empty() };
        assert(rootmap(forest_of(*self, player)) == union_map_all(m0, x, e1));
        if second {
            self.union(player, idx, N * N + 1);
            proof {
                lemma_union_all_push(m0, x, e1, n * n + 1);
            }
        }
        let ghost e2: Seq<int> = if second { e1.push(n * n + 1) } else { e1 };
        assert(e2 == edge_partners(n, player, x));
        assert(e2 + friendly_neighbors(board1, n, player, x, 0) =~= e2);
        let nbs = Self::neighbors(r, c);
        let ghost cells = neighbor_cells(n, r as int, c as int);
        let mut k: usize = 0;
        while k < nbs.len()
            invariant
                self.wf(),
                N * N <= 16384,
                self.board@ == board1,
                self.current_player == player,
                idx < N * N,
                x == idx as int,
                r == x / n,
                c == x % n,
                n == N,
                k <= nbs@.len(),
                nbs@.len() == cells.len(),
                cells == neighbor_cells(n, row_of(n, x), col_of(n, x)),
                forall|j: int|
                    0 <= j < nbs@.len() ==> (#[trigger] nbs@[j]).0 == cells[j].0 && nbs@[j].1 == cells[j].1,
                rootmap(forest_of(*self, player)) == union_map_all(
                    m0,
                    x,
                    e2 + friendly_neighbors(board1, n, player, x, k as int),
                ),
                forest_of(*self, player.spec_other()) == forest_of(*old(self), player.spec_other()),
                self.move_count == old(self).move_count + 1,
                self.pie_rule == old(self).pie_rule,
            decreases nbs@.len() - k,
        {
            let (nr, nc) = nbs[k];
            proof {
                assert(nbs@[k as int].0 == cells[k as int].0);
                assert(0 <= nr < n && 0 <= nc < n) by {
                    assert(cells == neighbor_cells(n, r as int, c as int));
                    lemma_neighbors_on_board(n, r as int, c as int, k as int);
                }
                lemma_cell(n, nr as int, nc as int);
            }
            let n_idx = Self::idx(nr, nc);
            let ghost before = e2 + friendly_neighbors(board1, n, player, x, k as int);
            let is_friend = match self.board[n_idx] {
                Some(q) => q == player,
                None => false,
            };
            proof {
                let nb = cells[k as int];
                assert(nb.0 == nr && nb.1 == nc);
                assert(nb.0 * n + nb.1 == n_idx);
                assert(is_friend == (board1[n_idx as int] == Some(player)));
                assert(friendly_neighbors(board1, n, player, x, k + 1) == (if board1[n_idx as int] == Some(
                    player,
                ) {
                    friendly_neighbors(board1, n, player, x, k as int).push(n_idx as int)
                } else {
                    friendly_neighbors(board1, n, player, x, k as int)
                }));
            }
            if is_friend {
                self.union(player, idx, n_idx);
                proof {
                    lemma_union_all_push(m0, x, before, n_idx as int);
                    assert(before.push(n_idx as int) =~= e2 + friendly_neighbors(
                        board1,
                        n,
                        player,
                        x,
                        k + 1,
                    ));
                }
            } else {
                proof {
                    assert(before =~= e2 + friendly_neighbors(board1, n, player, x, k + 1));
                }
            }
            k = k + 1;
        }
        let ghost pre = *self;
        let won = self.check_win(player);
        proof {
            let a = (N * N) as int;
            let m1 = rootmap(forest_of(pre, player));
            let m2 = rootmap(forest_of(*self, player));
            assert(m1[a] == m2[a] && m1[a + 1] == m2[a + 1]);
            assert(won == spec_is_won(*self, player));
            assert(e2 + friendly_neighbors(board1, n, player, x, k as int) == merge_partners(
                self.board@,
                n,
                player,
                x,
            ));
            if old(self).board@[x] is None && tracks_all(*old(self)) {
                lemma_play_tracks(*old(self), *self, x);
            }
        }
        won
    }

    /// The legal moves, written into `out`: the empty cells in order, then the
    /// swap move when the swap rule allows it.
    pub fn legal_actions(&self, out: &mut Vec<usize>)
        requires
            self.wf(),
        ensures
            final(out)@ == legal_moves(*self),
    {
        proof {
            lemma_board_size(N as int);
        }
        out.clear();
        let mut i: usize = 0;
        while i < N * N
            invariant
                self.wf(),
                N * N <= 16384,
                i <= N * N,
                out@ == empty_cells(self.board@, i as int),
            decreases N * N - i,
        {
            if self.board[i].is_none() {
                out.push(i);
            }
            i = i + 1;
        }
        if self.pie_rule && self.move_count == 1 && self.current_player == HexPlayer::White {
            out.push(N * N);
        }
    }

    /// Whether a player has won or the board is full.
    pub fn is_terminal(&self) -> (t: bool)
        requires
            self.wf(),
        ensures
            t == (spec_is_won(*self, HexPlayer::Black) || spec_is_won(*self, HexPlayer::White) || forall|
                i: int,
            |
                0 <= i < N * N ==> #[trigger] self.board@[i] is Some),
    {
        if self.is_won(HexPlayer::Black) || self.is_won(HexPlayer::White) {
            return true;
        }
        proof {
            lemma_board_size(N as int);
        }
        let mut i: usize = 0;
        while i < N * N
            invariant
                self.wf(),
                N * N <= 16384,
                i <= N * N,
                forall|j: int| 0 <= j < i ==> #[trigger] self.board@[j] is Some,
                !spec_is_won(*self, HexPlayer::Black),
                !spec_is_won(*self, HexPlayer::White),
            decreases N * N - i,
        {
            if self.board[i].is_none() {
                assert(!(self.board@[i as int] is Some));
                assert(!(forall|j: int| 0 <= j < N * N ==> #[trigger] self.board@[j] is Some));
                return false;
            }
            i = i + 1;
        }
        true
    }

    /// The name of move `idx`: `swap` for the swap index, else the column
    /// letter and the row number counted from 1 (`0` is `A1`).
    pub fn coord_to_str(idx: usize) -> (s: String)
        requires
            1 <= N <= 128,
            idx / N + 1 <= usize::MAX,
        ensures
            s@ == coord_name(N as int, idx as int),
    {
        proof {
            lemma_board_size(N as int);
        }
        if idx == N * N {
            let s = chars_of("swap");
            return string_of(s.as_slice());
        }
        let (r, c) = Self::coord(idx);
        let col_char = ((65 + c) as u8) as char;
        let mut v: Vec<char> = Vec::new();
        v.push(col_char);
        let digits = decimal_chars(r + 1);
        extend_chars(&mut v, digits.as_slice());
        proof {
            assert(v@ =~= seq![(65 + idx % N) as char] + decimal((idx / N + 1) as nat));
        }
        string_of(v.as_slice())
    }

    /// The move named by `s` (see `parse_coord`), or `None`.
    pub fn str_to_coord(s: &str) -> (r: Option<usize>)
        requires
            1 <= N <= 128,
        ensures
            r == parse_coord(N as int, s@),
    {
        proof {
            lemma_board_size(N as int);
        }
        let all = chars_of(s);
        let t = trim_chars(all.as_slice());
        if t.len() == 0 {
            return None;
        }
        if Self::is_swap_word(t.as_slice()) {
            return Some(N * N);
        }
        let first = t[0];
        if ('A' <= first && first <= 'Z') || ('a' <= first && first <= 'z') {
            let up = if 'a' <= first && first <= 'z' {
                ((first as u32) - 32) as u8
            } else {
                first as u8
            };
            let col = (up - 65) as usize;
            let mut rest: Vec<char> = Vec::new();
            let mut i: usize = 1;
            while i < t.len()
                invariant
                    1 <= i <= t@.len(),
                    rest@ == t@.subrange(1, i as int),
                decreases t@.len() - i,
            {
                rest.push(t[i]);
                proof {
                    assert(t@.subrange(1, i as int).push(t@[i as int]) =~= t@.subrange(1, i + 1));
                }
                i = i + 1;
            }
            proof {
                assert(rest@ =~= t@.drop_first());
                assert(col == ascii_upper(first) as int - 'A' as int);
            }
            let row_part = trim_chars(rest.as_slice());
            match parse_usize(row_part.as_slice()) {
                Some(row) => {
                    if row >= 1 && row <= N && col < N {
                        proof {
                            lemma_cell(N as int, row - 1, col as int);
                        }
                        return Some((row - 1) * N + col);
                    }
                    return None;
                },
                None => {
                    return None;
                },
            }
        }
        let mut k: usize = 0;
        while k < t.len() && !(is_space_char(t[k]) || t[k] == ',')
            invariant
                k <= t@.len(),
                first_separator(t@, 0) == first_separator(t@, k as int),
            decreases t@.len() - k,
        {
            k = k + 1;
        }
        proof {
            if k < t@.len() {
                assert(first_separator(t@, k as int) == k);
            }
        }
        if k < t.len() {
            let mut left: Vec<char> = Vec::new();
            let mut right: Vec<char> = Vec::new();
            let mut i: usize = 0;
            while i < t.len()
                invariant
                    k < t@.len(),
                    i <= t@.len(),
                    i <= k ==> left@ == t@.take(i as int) && right@.len() == 0,
                    i > k ==> left@ == t@.take(k as int) && right@ == t@.subrange(k + 1, i as int),
                decreases t@.len() - i,
            {
                if i < k {
                    left.push(t[i]);
                    proof {
                        assert(t@.take(i as int).push(t@[i as int]) =~= t@.take(i + 1));
                    }
                } else if i > k {
                    right.push(t[i]);
                    proof {
                        assert(t@.subrange(k + 1, i as int).push(t@[i as int]) =~= t@.subrange(
                            k + 1,
                            i + 1,
                        ));
                    }
                } else {
                    proof {
                        assert(t@.subrange(k + 1, k + 1) =~= Seq::<char>::empty());
                    }
                }
                i = i + 1;
            }
            proof {
                assert(right@ =~= t@.skip(k + 1));
            }
            let lt = trim_chars(left.as_slice());
            let rt = trim_chars(right.as_slice());
            let rp = parse_usize(lt.as_slice());
            let cp = parse_usize(rt.as_slice());
            match (rp, cp) {
                (Some(r), Some(c)) => {
                    if r < N && c < N {
                        proof {
                            lemma_cell(N as int, r as int, c as int);
                        }
                        return Some(r * N + c);
                    }
                },
                _ => {
                    return None;
                },
            }
        }
        match parse_usize(t.as_slice()) {
            Some(i) => if i < N * N {
                Some(i)
            } else {
                None
            },
            None => None,
        }
    }

    /// Whether `t` spells `swap` in any mix of ASCII cases.
    fn is_swap_word(t: &[char]) -> (b: bool)
        ensures
            b == eq_ignore_ascii_case(t@, "swap"@),
    {
        let w = chars_of("swap");
        proof {
            reveal_strlit("swap");
        }
        if t.len() != 4 {
            return false;
        }
        let mut i: usize = 0;
        while i < 4
            invariant
                t@.len() == 4,
                w@ == "swap"@,
                w@.len() == 4,
                i <= 4,
                forall|j: int| 0 <= j < i ==> ascii_upper(#[trigger] t@[j]) == ascii_upper(w@[j]),
            decreases 4 - i,
        {
            let a = t[i];
            let au = if 'a' <= a && a <= 'z' { ((a as u32) - 32) as u8 as char } else { a };
            let b = w[i];
            let bu = if 'a' <= b && b <= 'z' { ((b as u32) - 32) as u8 as char } else { b };
            if au != bu {
                assert(ascii_upper(t@[i as int]) != ascii_upper(w@[i as int]));
                return false;
            }
            i = i + 1;
        }
        true
    }
}


/// The name of every move reads back as that move, on boards of up to 26
/// columns (whose column letters run from `A` to `Z`).
pub proof fn law_coord_roundtrip(n: int, idx: int)
    requires
        1 <= n <= 26,
        0 <= idx <= n * n,
    ensures
        parse_coord(n, coord_name(n, idx)) == Some(idx as usize),
{
    reveal_strlit("swap");
    lemma_board_size(n);
    if idx == n * n {
        let w = "swap"@;
        assert(w.len() == 4);
        lemma_trim_unchanged(w);
        assert(eq_ignore_ascii_case(w, w));
    } else {
        lemma_cell_of(n, idx);
        let r = idx / n;
        let c = idx % n;
        let letter = (65 + c) as char;
        let digits = decimal((r + 1) as nat);
        let name = coord_name(n, idx);
        assert(name == seq![letter] + digits);
        lemma_decimal_digits((r + 1) as nat);
        assert(!is_space(digits[digits.len() - 1]));
        assert(name.last() == digits[digits.len() - 1]);
        lemma_trim_unchanged(name);
        let w = "swap"@;
        if name.len() == 4 {
            assert('0' <= name[1] <= '9');
            assert(ascii_upper(name[1]) == name[1]);
            assert(ascii_upper(w[1]) == 'W');
            assert(!eq_ignore_ascii_case(name, w));
        }
        assert(is_ascii_alpha(name[0]));
        assert(ascii_upper(name[0]) as int - 'A' as int == c);
        assert(name.drop_first() == digits);
        law_parse_decimal((r + 1) as usize);
        assert(((r + 1 - 1) * n + c) == idx);
    }
}


/// The listed empty cells are empty cells below `k`.
proof fn lemma_empty_cells(board: Seq<Option<HexPlayer>>, k: int, a: usize)
    requires
        k <= board.len(),
        k <= 16384,
        empty_cells(board, k).contains(a),
    ensures
        (a as int) < k,
        board[a as int] is None,
    decreases k,
{
    if k > 0 {
        let rest = empty_cells(board, k - 1);
        if rest.contains(a) {
            lemma_empty_cells(board, k - 1, a);
        } else {
            let m = empty_cells(board, k);
            let i = choose|i: int| 0 <= i < m.len() && m[i] == a;
            if board[k - 1] is None {
                if i < rest.len() {
                    assert(rest[i] == a);
                } else {
                    assert(i == rest.len());
                    assert(m[rest.len() as int] == (k - 1) as usize);
                    assert(a as int == k - 1);
                }
            }
        }
    }
}

/// Every cell move that `legal_actions` lists is an empty cell, so playing
/// it keeps both forests describing the players' connections (see
/// `play_move`); the only other listed move is the swap.
pub proof fn law_legal_cells_empty<const N: usize>(st: HexState<N>, a: usize)
    requires
        st.wf(),
        legal_moves(st).contains(a),
    ensures
        a < N * N ==> st.board@[a as int] is None,
        a >= N * N ==> a == N * N && swap_available(st),
{
    lemma_board_size(N as int);
    let cells = empty_cells(st.board@, N * N);
    if cells.contains(a) {
        lemma_empty_cells(st.board@, N * N, a);
    } else {
        let m = legal_moves(st);
        let i = choose|i: int| 0 <= i < m.len() && m[i] == a;
        if swap_available(st) && i < cells.len() {
            assert(cells[i] == a);
        }
    }
}

} // verus!
