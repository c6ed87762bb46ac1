//! Connect four: colours drop discs into columns; four in a line wins.
use crate::connection::util::{bit_at, lemma_unit_ray_fits, ray_in_bounds, ray_len, RectBitSet};
use crate::text::{digit_char, digit_to_char, string_of};
use vstd::prelude::*;

verus! {

/// The two colours; Red moves first.
#[derive(Clone, Copy, PartialEq, Eq, PartialOrd, Ord, Debug, Structural)]
pub enum Color {
    /// Moves first; index 0.
    Red,
    /// Moves second; index 1.
    Blue,
}

impl Color {
    /// 0 for Red, 1 for Blue.
    pub open spec fn ix(self) -> int {
        match self {
            Color::Red => 0,
            Color::Blue => 1,
        }
    }

    /// The other colour.
    pub open spec fn spec_opponent(self) -> Color {
        match self {
            Color::Red => Color::Blue,
            Color::Blue => Color::Red,
        }
    }

    /// The colour's index: 0 for Red, 1 for Blue.
    pub fn index(self) -> (i: usize)
        ensures
            i == self.ix(),
    {
        match self {
            Color::Red => 0,
            Color::Blue => 1,
        }
    }

    fn opponent(&self) -> (o: Color)
        ensures
            o == self.spec_opponent(),
    {
        match self {
            Color::Blue => Color::Red,
            Color::Red => Color::Blue,
        }
    }
}

impl From<Color> for u8 {
    fn from(c: Color) -> (b: u8) {
        match c {
            Color::Red => 0,
            Color::Blue => 1,
        }
    }
}

impl vstd::std_specs::convert::FromSpecImpl<Color> for u8 {
    open spec fn obeys_from_spec() -> bool {
        true
    }

    open spec fn from_spec(c: Color) -> u8 {
        match c {
            Color::Red => 0,
            Color::Blue => 1,
        }
    }
}

/// A move: the column to drop a disc into.
#[derive(Clone, Copy, PartialEq, Eq, PartialOrd, Ord, Debug, Structural)]
pub struct Move(pub u8);

/// Board dimensions the game supports: heights fit a `u8` and columns a
/// `Move`.
pub open spec fn dims_ok(h: int, w: int) -> bool {
    0 <= h <= 255 && 0 <= w <= 256
}

/// Total of the column heights.
pub open spec fn height_sum(hs: Seq<u8>) -> int
    decreases hs.len(),
{
    if hs.len() == 0 {
        0
    } else {
        height_sum(hs.drop_last()) + hs.last()
    }
}

/// The win test after a disc lands at `(row, col)` on `bits`: three more
/// discs below it, or three more along a row or a diagonal through it,
/// counting each direction up to three.
pub open spec fn wins_at(bits: Seq<bool>, h: int, w: int, row: int, col: int) -> bool {
    let ray = |dr: int, dc: int| ray_len(bits, h, w, row, col, dr, dc, 3);
    ||| ray(-1, 0) >= 3
    ||| ray(0, -1) + ray(0, 1) >= 3
    ||| ray(1, -1) + ray(-1, 1) >= 3
    ||| ray(1, 1) + ray(-1, -1) >= 3
}

/// From `(r, c)`, `m` steps of `(dr, dc)` stay on the `h`-by-`w` board and
/// each lands on a disc of `bits`.
pub open spec fn run(bits: Seq<bool>, h: int, w: int, r: int, c: int, dr: int, dc: int, m: nat) -> bool
    decreases m,
{
    m == 0 || (0 <= r + dr < h && 0 <= c + dc < w && bits[(r + dr) * w + c + dc] && run(
        bits,
        h,
        w,
        r + dr,
        c + dc,
        dr,
        dc,
        (m - 1) as nat,
    ))
}

/// Four discs in a line through `(r, c)`: along a row, a column or a
/// diagonal, `a` more discs one way and `3 - a` the other.
pub open spec fn four_in_line(bits: Seq<bool>, h: int, w: int, r: int, c: int) -> bool {
    exists|a: nat|
        #![trigger run(bits, h, w, r, c, 0, 1, a)]
        #![trigger run(bits, h, w, r, c, 1, 0, a)]
        #![trigger run(bits, h, w, r, c, 1, 1, a)]
        #![trigger run(bits, h, w, r, c, 1, -1, a)]
        a <= 3 && {
            ||| run(bits, h, w, r, c, 0, 1, a) && run(bits, h, w, r, c, 0, -1, (3 - a) as nat)
            ||| run(bits, h, w, r, c, 1, 0, a) && run(bits, h, w, r, c, -1, 0, (3 - a) as nat)
            ||| run(bits, h, w, r, c, 1, 1, a) && run(bits, h, w, r, c, -1, -1, (3 - a) as nat)
            ||| run(bits, h, w, r, c, 1, -1, a) && run(bits, h, w, r, c, -1, 1, (3 - a) as nat)
        }
}

/// A run of `m <= bound` discs makes the ray count at least `m`.
proof fn lemma_run_ray(bits: Seq<bool>, h: int, w: int, r: int, c: int, dr: int, dc: int, m: nat, bound: nat)
    requires
        bits.len() == h * w,
        run(bits, h, w, r, c, dr, dc, m),
        m <= bound,
    ensures
        ray_len(bits, h, w, r, c, dr, dc, bound) >= m,
    decreases m,
{
    if m > 0 {
        let r1 = r + dr;
        let c1 = c + dc;
        assert(0 <= r1 * w + c1 < h * w) by (nonlinear_arith)
            requires
                0 <= r1 < h,
                0 <= c1 < w,
        ;
        lemma_run_ray(bits, h, w, r1, c1, dr, dc, (m - 1) as nat, (bound - 1) as nat);
    }
}

/// Stepping `(dr, 1)` from `(r, c)` over discs of `bits`, within `m` steps
/// the walk reaches column `w`, one past the right edge, where the flat index
/// `row * w + w` reads a disc at the start of the next row.
pub open spec fn wraps(bits: Seq<bool>, h: int, w: int, r: int, c: int, dr: int, m: nat) -> bool
    decreases m,
{
    m > 0 && {
        ||| c + 1 == w && 0 <= r + dr && bit_at(bits, (r + dr) * w + w)
        ||| 0 <= r + dr < h && 0 <= c + 1 < w && bits[(r + dr) * w + c + 1] && wraps(
            bits,
            h,
            w,
            r + dr,
            c + 1,
            dr,
            (m - 1) as nat,
        )
    }
}

proof fn lemma_wraps_mono(bits: Seq<bool>, h: int, w: int, r: int, c: int, dr: int, m: nat, n: nat)
    requires
        wraps(bits, h, w, r, c, dr, m),
        m <= n,
    ensures
        wraps(bits, h, w, r, c, dr, n),
    decreases m,
{
    if !(c + 1 == w && 0 <= r + dr && bit_at(bits, (r + dr) * w + w)) {
        lemma_wraps_mono(bits, h, w, r + dr, c + 1, dr, (m - 1) as nat, (n - 1) as nat);
    }
}

proof fn lemma_ray_bound(bits: Seq<bool>, h: int, w: int, r: int, c: int, dr: int, dc: int, bound: nat)
    ensures
        ray_len(bits, h, w, r, c, dr, dc, bound) <= bound,
    decreases bound,
{
    if bound > 0 {
        lemma_ray_bound(bits, h, w, r + dr, c + dc, dr, dc, (bound - 1) as nat);
    }
}

/// A ray of the win test that counts `m` discs walks over `m` discs on the
/// board, unless it steps to the right past the edge.
proof fn lemma_ray_run(bits: Seq<bool>, h: int, w: int, r: int, c: int, dr: int, dc: int, bound: nat, m: nat)
    requires
        bits.len() == h * w,
        0 <= c < w,
        -1 <= dc <= 1,
        m <= ray_len(bits, h, w, r, c, dr, dc, bound),
    ensures
        run(bits, h, w, r, c, dr, dc, m) || (dc == 1 && wraps(bits, h, w, r, c, dr, m)),
    decreases m,
{
    if m > 0 {
        let r1 = r + dr;
        let c1 = c + dc;
        assert(bound > 0);
        assert(ray_in_bounds(h, w, r1, c1) && bit_at(bits, r1 * w + c1));
        if c1 == w {
            assert(dc == 1);
        } else {
            assert(0 <= r1 * w + c1 < h * w);
            assert(r1 < h) by (nonlinear_arith)
                requires
                    0 <= r1,
                    0 <= c1 < w,
                    r1 * w + c1 < h * w,
            ;
            lemma_ray_run(bits, h, w, r1, c1, dr, dc, (bound - 1) as nat, (m - 1) as nat);
        }
    }
}

/// The win test finds four in a line through the landed cell, except where
/// one of its rays to the right steps past the board's right edge and reads
/// the next row (as the test's bounds `0..=H` and `0..=W` let it): a drop
/// that passes the test has four discs of its colour in a line through it,
/// or such a wrapped read.
pub proof fn law_win_test_finds_four(bits: Seq<bool>, h: int, w: int, row: int, col: int)
    requires
        bits.len() == h * w,
        0 <= row < h,
        0 <= col < w,
        wins_at(bits, h, w, row, col),
    ensures
        four_in_line(bits, h, w, row, col) || wraps(bits, h, w, row, col, 0, 3) || wraps(bits, h, w, row, col, 1, 3)
            || wraps(bits, h, w, row, col, -1, 3),
{
    let ray = |dr: int, dc: int| ray_len(bits, h, w, row, col, dr, dc, 3);
    lemma_ray_bound(bits, h, w, row, col, 0, 1, 3);
    lemma_ray_bound(bits, h, w, row, col, 0, -1, 3);
    lemma_ray_bound(bits, h, w, row, col, 1, -1, 3);
    lemma_ray_bound(bits, h, w, row, col, -1, 1, 3);
    lemma_ray_bound(bits, h, w, row, col, 1, 1, 3);
    lemma_ray_bound(bits, h, w, row, col, -1, -1, 3);
    if ray(-1, 0) >= 3 {
        lemma_ray_run(bits, h, w, row, col, -1, 0, 3, 3);
        let a: nat = 0;
        assert(run(bits, h, w, row, col, 1, 0, a) && run(bits, h, w, row, col, -1, 0, (3 - a) as nat));
    } else if ray(0, -1) + ray(0, 1) >= 3 {
        let a = ray(0, 1);
        let b = (3 - a) as nat;
        lemma_ray_run(bits, h, w, row, col, 0, 1, 3, a);
        lemma_ray_run(bits, h, w, row, col, 0, -1, 3, b);
        if !run(bits, h, w, row, col, 0, 1, a) {
            lemma_wraps_mono(bits, h, w, row, col, 0, a, 3);
        } else {
            assert(run(bits, h, w, row, col, 0, 1, a) && run(bits, h, w, row, col, 0, -1, (3 - a) as nat));
        }
    } else if ray(1, -1) + ray(-1, 1) >= 3 {
        let a = ray(1, -1);
        let b = (3 - a) as nat;
        lemma_ray_run(bits, h, w, row, col, 1, -1, 3, a);
        lemma_ray_run(bits, h, w, row, col, -1, 1, 3, b);
        if !run(bits, h, w, row, col, -1, 1, b) {
            lemma_wraps_mono(bits, h, w, row, col, -1, b, 3);
        } else {
            assert(run(bits, h, w, row, col, 1, -1, a) && run(bits, h, w, row, col, -1, 1, (3 - a) as nat));
        }
    } else {
        let b = ray(-1, -1);
        let a = (3 - b) as nat;
        lemma_ray_run(bits, h, w, row, col, 1, 1, 3, a);
        lemma_ray_run(bits, h, w, row, col, -1, -1, 3, b);
        if !run(bits, h, w, row, col, 1, 1, a) {
            lemma_wraps_mono(bits, h, w, row, col, 1, a, 3);
        } else {
            assert((3 - a) as nat == b);
            assert(run(bits, h, w, row, col, 1, 1, a) && run(bits, h, w, row, col, -1, -1, (3 - a) as nat));
        }
    }
}

/// Just after a disc lands on top of its column, four in a line through it
/// passes the win test.
proof fn lemma_four_wins(old_bits: Seq<bool>, hs: Seq<u8>, h: int, w: int, row: int, col: int)
    requires
        0 <= col < w,
        0 <= row < h,
        h <= 255,
        hs.len() == w,
        old_bits.len() == h * w,
        hs[col] == row,
        stacked(old_bits, hs, h, w),
        four_in_line(old_bits.update(row * w + col, true), h, w, row, col),
    ensures
        wins_at(old_bits.update(row * w + col, true), h, w, row, col),
{
    let bits = old_bits.update(row * w + col, true);
    assert(0 <= row * w + col < h * w) by (nonlinear_arith)
        requires
            0 <= row < h,
            0 <= col < w,
    ;
    assert(bits.len() == h * w);
    assert(four_in_line(bits, h, w, row, col));
    let a = choose|a: nat|
        a <= 3 && {
            ||| run(bits, h, w, row, col, 0, 1, a) && run(bits, h, w, row, col, 0, -1, (3 - a) as nat)
            ||| run(bits, h, w, row, col, 1, 0, a) && run(bits, h, w, row, col, -1, 0, (3 - a) as nat)
            ||| run(bits, h, w, row, col, 1, 1, a) && run(bits, h, w, row, col, -1, -1, (3 - a) as nat)
            ||| run(bits, h, w, row, col, 1, -1, a) && run(bits, h, w, row, col, -1, 1, (3 - a) as nat)
        };
    assert(a <= 3);
    let b = (3 - a) as nat;
    if run(bits, h, w, row, col, 0, 1, a) && run(bits, h, w, row, col, 0, -1, b) {
        lemma_run_ray(bits, h, w, row, col, 0, 1, a, 3);
        lemma_run_ray(bits, h, w, row, col, 0, -1, b, 3);
    } else if run(bits, h, w, row, col, 1, 0, a) && run(bits, h, w, row, col, -1, 0, b) {
        if a > 0 {
            let i = (row + 1) * w + col;
            assert(0 <= i < h * w && i != row * w + col) by (nonlinear_arith)
                requires
                    0 <= row + 1 < h,
                    0 <= col < w,
                    i == (row + 1) * w + col,
            ;
            assert(bits[i]);
            assert(old_bits[i]);
            vstd::arithmetic::div_mod::lemma_fundamental_div_mod_converse(i, w, row + 1, col);
            assert(i / w < hs[i % w]);
        }
        lemma_run_ray(bits, h, w, row, col, -1, 0, b, 3);
    } else if run(bits, h, w, row, col, 1, 1, a) && run(bits, h, w, row, col, -1, -1, b) {
        lemma_run_ray(bits, h, w, row, col, 1, 1, a, 3);
        lemma_run_ray(bits, h, w, row, col, -1, -1, b, 3);
    } else {
        lemma_run_ray(bits, h, w, row, col, 1, -1, a, 3);
        lemma_run_ray(bits, h, w, row, col, -1, 1, b, 3);
    }
}

/// The moves into columns among the first `k` that still have room.
pub open spec fn open_moves(hs: Seq<u8>, h: int, k: int) -> Seq<Move>
    decreases k,
{
    if k <= 0 {
        Seq::empty()
    } else {
        let rest = open_moves(hs, h, k - 1);
        if hs[k - 1] < h {
            rest.push(Move((k - 1) as u8))
        } else {
            rest
        }
    }
}

/// A connect-four position.
pub struct State<const H: usize, const W: usize> {
    red: RectBitSet<H, W>,
    blue: RectBitSet<H, W>,
    heights: Vec<u8>,
    player_to_move: Color,
    remaining_tiles: u32,
    winner: Option<Color>,
}

impl<const H: usize, const W: usize> Clone for State<H, W> {
    fn clone(&self) -> (c: Self)
        ensures
            c.discs(Color::Red) == self.discs(Color::Red),
            c.discs(Color::Blue) == self.discs(Color::Blue),
            c.heights() == self.heights(),
            c.to_move() == self.to_move(),
            c.remaining() == self.remaining(),
            c.winner() == self.winner(),
            self.wf() ==> c.wf(),
    {
        let c = State {
            red: self.red.clone(),
            blue: self.blue.clone(),
            heights: self.heights.clone(),
            player_to_move: self.player_to_move,
            remaining_tiles: self.remaining_tiles,
            winner: self.winner,
        };
        assert(c.red@ == self.red@ && c.blue@ == self.blue@ && c.heights@ == self.heights@);
        c
    }
}

impl<const H: usize, const W: usize> State<H, W> {
    /// The discs of colour `c`, cell by cell, row-major.
    pub closed spec fn discs(&self, c: Color) -> Seq<bool> {
        match c {
            Color::Red => self.red@,
            Color::Blue => self.blue@,
        }
    }

    /// The number of discs in each column.
    pub closed spec fn heights(&self) -> Seq<u8> {
        self.heights@
    }

    /// The colour to move.
    pub closed spec fn to_move(&self) -> Color {
        self.player_to_move
    }

    /// Free cells left.
    pub closed spec fn remaining(&self) -> int {
        self.remaining_tiles as int
    }

    /// The colour that has connected four, if any.
    pub closed spec fn winner(&self) -> Option<Color> {
        self.winner
    }

    /// A well-formed position: both grids hold one bit per cell, no column
    /// is over-full, and the free cells are those the columns leave.
    pub closed spec fn wf(&self) -> bool {
        &&& dims_ok(H as int, W as int)
        &&& self.red.wf()
        &&& self.blue.wf()
        &&& self.heights@.len() == W
        &&& forall|c: int| 0 <= c < W ==> #[trigger] self.heights@[c] <= H
        &&& self.remaining_tiles + height_sum(self.heights@) == H * W
        &&& stacked(self.red@, self.heights@, H as int, W as int)
        &&& stacked(self.blue@, self.heights@, H as int, W as int)
    }
}

/// Every disc of `bits` lies below the top of its column.
pub open spec fn stacked(bits: Seq<bool>, hs: Seq<u8>, h: int, w: int) -> bool {
    forall|i: int| 0 <= i < h * w && #[trigger] bits[i] ==> i / w < hs[i % w]
}

/// Dropping a disc at the top of column `col` keeps every colour stacked.
proof fn lemma_drop_stacked(bits: Seq<bool>, hs: Seq<u8>, h: int, w: int, row: int, col: int, placed: bool)
    requires
        0 <= col < w,
        0 <= row < h,
        h <= 255,
        hs.len() == w,
        bits.len() == h * w,
        hs[col] == row,
        stacked(bits, hs, h, w),
    ensures
        stacked(
            if placed {
                bits.update(row * w + col, true)
            } else {
                bits
            },
            hs.update(col, (row + 1) as u8),
            h,
            w,
        ),
{
    let nb = if placed { bits.update(row * w + col, true) } else { bits };
    let nh = hs.update(col, (row + 1) as u8);
    assert(0 <= row * w + col < h * w) by (nonlinear_arith)
        requires
            0 <= row < h,
            0 <= col < w,
    ;
    vstd::arithmetic::div_mod::lemma_fundamental_div_mod_converse(row * w + col, w, row, col);
    assert forall|i: int| 0 <= i < h * w && #[trigger] nb[i] implies i / w < nh[i % w] by {
        vstd::arithmetic::div_mod::lemma_fundamental_div_mod(i, w);
        assert(0 <= i % w < w) by {
            vstd::arithmetic::div_mod::lemma_mod_bound(i, w);
        }
        if placed && i == row * w + col {
            assert(nh[col] == row + 1);
        } else {
            assert(bits[i]);
            assert(i / w < hs[i % w]);
        }
    }
}

/// Sums are bounded by length times the largest entry.
proof fn lemma_height_sum_bound(hs: Seq<u8>, h: int)
    requires
        forall|c: int| 0 <= c < hs.len() ==> #[trigger] hs[c] <= h,
        0 <= h,
    ensures
        0 <= height_sum(hs) <= hs.len() * h,
    decreases hs.len(),
{
    if hs.len() > 0 {
        lemma_height_sum_bound(hs.drop_last(), h);
        assert(hs.drop_last().len() * h + h == hs.len() * h) by (nonlinear_arith)
            requires
                hs.drop_last().len() + 1 == hs.len(),
        ;
    }
}

/// Raising one column by one raises the total by one.
proof fn lemma_height_sum_update(hs: Seq<u8>, i: int, v: u8)
    requires
        0 <= i < hs.len(),
    ensures
        height_sum(hs.update(i, v)) == height_sum(hs) - hs[i] + v,
    decreases hs.len(),
{
    let t = hs.update(i, v);
    if i < hs.len() - 1 {
        lemma_height_sum_update(hs.drop_last(), i, v);
        assert(t.drop_last() == hs.drop_last().update(i, v));
    } else {
        assert(t.drop_last() == hs.drop_last());
    }
}

/// All-zero heights sum to zero.
proof fn lemma_height_sum_zero(hs: Seq<u8>)
    requires
        forall|c: int| 0 <= c < hs.len() ==> #[trigger] hs[c] == 0,
    ensures
        height_sum(hs) == 0,
    decreases hs.len(),
{
    if hs.len() > 0 {
        lemma_height_sum_zero(hs.drop_last());
    }
}

/// The connect-four rules on an `H`-by-`W` board.
pub struct C4<const H: usize, const W: usize>;

impl<const H: usize, const W: usize> C4<H, W> {
    /// The colour to move.
    pub fn agent_to_act(&self, state: &State<H, W>) -> (c: Color)
        ensures
            c == state.to_move(),
    {
        state.player_to_move
    }

    /// Both colours, Red first.
    pub fn agents(&self) -> (v: Vec<Color>)
        ensures
            v@ == seq![Color::Red, Color::Blue],
    {
        let mut v = Vec::new();
        v.push(Color::Red);
        v.push(Color::Blue);
        v
    }

    /// The game is over: the board is full or someone has won.
    pub fn check_terminal(&self, state: &State<H, W>) -> (t: bool)
        ensures
            t == (state.remaining() == 0 || state.winner() is Some),
    {
        state.remaining_tiles == 0 || state.winner.is_some()
    }

    /// Drops a disc of the colour to move into `action`'s column. When it
    /// completes a line (`wins_at`), that colour becomes the winner, keeps the
    /// move, and is returned; otherwise the turn passes and `None` comes back.
    pub fn apply_action(&self, state: &mut State<H, W>, action: &Move) -> (won: Option<Color>)
        requires
            old(state).wf(),
            (action.0 as int) < W,
            old(state).heights()[action.0 as int] < H,
        ensures
            final(state).wf(),
            ({
                let mover = old(state).to_move();
                let col = action.0 as int;
                let row = old(state).heights()[col] as int;
                let discs = old(state).discs(mover).update(row * W + col, true);
                &&& final(state).discs(mover) == discs
                &&& final(state).discs(mover.spec_opponent()) == old(state).discs(mover.spec_opponent())
                &&& final(state).heights() == old(state).heights().update(col, (row + 1) as u8)
                &&& final(state).remaining() == old(state).remaining() - 1
                &&& four_in_line(discs, H as int, W as int, row, col) ==> won == Some(mover)
                &&& won == Some(mover) ==> four_in_line(discs, H as int, W as int, row, col) || wraps(
                    discs,
                    H as int,
                    W as int,
                    row,
                    col,
                    0,
                    3,
                ) || wraps(discs, H as int, W as int, row, col, 1, 3) || wraps(
                    discs,
                    H as int,
                    W as int,
                    row,
                    col,
                    -1,
                    3,
                )
                &&& if wins_at(discs, H as int, W as int, row, col) {
                    &&& won == Some(mover)
                    &&& final(state).winner() == Some(mover)
                    &&& final(state).to_move() == mover
                } else {
                    &&& won is None
                    &&& final(state).winner() == old(state).winner()
                    &&& final(state).to_move() == mover.spec_opponent()
                }
            }),
    {
        let ghost hs = state.heights@;
        let col = action.0 as usize;
        let row = state.heights[col] as usize;
        proof {
            lemma_height_sum_update(hs, col as int, (row + 1) as u8);
            lemma_height_sum_bound(hs.update(col as int, (row + 1) as u8), H as int);
            assert(row * W + col < H * W) by (nonlinear_arith)
                requires
                    row < H,
                    col < W,
            ;
            assert(forall|c: int| 0 <= c < W ==> #[trigger] hs.update(col as int, (row + 1) as u8)[c] <= H);
            assert(hs.len() * H == H * W) by (nonlinear_arith)
                requires
                    hs.len() == W,
            ;
            let red_moves = state.player_to_move == Color::Red;
            lemma_drop_stacked(state.red@, hs, H as int, W as int, row as int, col as int, red_moves);
            lemma_drop_stacked(state.blue@, hs, H as int, W as int, row as int, col as int, !red_moves);
            let mover_bits = if red_moves { state.red@ } else { state.blue@ };
            let nb = mover_bits.update(row * W + col, true);
            if four_in_line(nb, H as int, W as int, row as int, col as int) {
                lemma_four_wins(mover_bits, hs, H as int, W as int, row as int, col as int);
            }
            if wins_at(nb, H as int, W as int, row as int, col as int) {
                law_win_test_finds_four(nb, H as int, W as int, row as int, col as int);
            }
        }
        match state.player_to_move {
            Color::Red => state.red.set((row, col), true),
            Color::Blue => state.blue.set((row, col), true),
        }
        state.remaining_tiles = state.remaining_tiles - 1;
        state.heights.set(col, (row + 1) as u8);
        let center = (row as i32, col as i32);
        let board = match state.player_to_move {
            Color::Red => &state.red,
            Color::Blue => &state.blue,
        };
        proof {
            assert((H + 1) * W <= usize::MAX) by (nonlinear_arith)
                requires
                    H <= 255,
                    W <= 256,
            ;
        }
        proof {
            let bits = board@;
            let (h, w, r, c) = (H as int, W as int, row as int, col as int);
            lemma_unit_ray_fits(bits, h, w, r, c, 0, -1, 3);
            lemma_unit_ray_fits(bits, h, w, r, c, 0, 1, 3);
            lemma_unit_ray_fits(bits, h, w, r, c, -1, 0, 3);
            lemma_unit_ray_fits(bits, h, w, r, c, 1, -1, 3);
            lemma_unit_ray_fits(bits, h, w, r, c, 1, 1, 3);
            lemma_unit_ray_fits(bits, h, w, r, c, -1, -1, 3);
            lemma_unit_ray_fits(bits, h, w, r, c, -1, 1, 3);
        }
        let left = board.ray_count(center, (0, -1), 3);
        let right = board.ray_count(center, (0, 1), 3);
        let down = board.ray_count(center, (-1, 0), 3);
        let up_left = board.ray_count(center, (1, -1), 3);
        let up_right = board.ray_count(center, (1, 1), 3);
        let down_left = board.ray_count(center, (-1, -1), 3);
        let down_right = board.ray_count(center, (-1, 1), 3);
        if down >= 3 || left + right >= 3 || up_left + down_right >= 3 || up_right + down_left >= 3 {
            state.winner = Some(state.player_to_move);
            Some(state.player_to_move)
        } else {
            state.player_to_move = state.player_to_move.opponent();
            None
        }
    }

    /// The empty board, Red to move.
    pub fn start_state(&self) -> (s: State<H, W>)
        requires
            dims_ok(H as int, W as int),
        ensures
            s.wf(),
            s.discs(Color::Red) == Seq::new((H * W) as nat, |i: int| false),
            s.discs(Color::Blue) == Seq::new((H * W) as nat, |i: int| false),
            s.heights() == Seq::new(W as nat, |i: int| 0u8),
            s.to_move() == Color::Red,
            s.remaining() == H * W,
            s.winner() is None,
    {
        proof {
            assert(H * W <= 65280) by (nonlinear_arith)
                requires
                    H <= 255,
                    W <= 256,
            ;
        }
        let mut heights: Vec<u8> = Vec::new();
        let mut i: usize = 0;
        while i < W
            invariant
                i <= W,
                heights@ == Seq::new(i as nat, |k: int| 0u8),
            decreases W - i,
        {
            heights.push(0);
            i = i + 1;
        }
        proof {
            lemma_height_sum_zero(heights@);
        }
        State {
            player_to_move: Color::Red,
            winner: None,
            heights,
            remaining_tiles: (H * W) as u32,
            red: RectBitSet::new(),
            blue: RectBitSet::new(),
        }
    }

    /// The columns with room, in order.
    pub fn legal_actions(&self, state: &State<H, W>) -> (moves: Vec<Move>)
        requires
            state.wf(),
        ensures
            moves@ == open_moves(state.heights(), H as int, W as int),
            forall|c: int| 0 <= c < W && state.heights()[c] < H ==> #[trigger] moves@.contains(Move(c as u8)),
            forall|m: Move| #[trigger] moves@.contains(m) ==> (m.0 as int) < W && state.heights()[m.0 as int] < H,
    {
        let mut moves: Vec<Move> = Vec::new();
        let mut col: usize = 0;
        while col < W
            invariant
                col <= W,
                W <= 256,
                H <= 255,
                state.heights@.len() == W,
                moves@ == open_moves(state.heights@, H as int, col as int),
            decreases W - col,
        {
            if state.heights[col] < H as u8 {
                moves.push(Move(col as u8));
            }
            col = col + 1;
        }
        proof {
            assert forall|c: int| 0 <= c < W && state.heights()[c] < H implies #[trigger] moves@.contains(
                Move(c as u8),
            ) by {
                lemma_open_moves_complete(state.heights(), H as int, W as int, c);
            }
            assert forall|m: Move| #[trigger] moves@.contains(m) implies (m.0 as int) < W && state.heights()[m.0 as int]
                < H by {
                lemma_open_moves(state.heights(), H as int, W as int, m);
            }
        }
        moves
    }
}


/// One cell of the picture: `R|`, `B|` or ` |`.
pub open spec fn cell_text(red: Seq<bool>, blue: Seq<bool>, w: int, r: int, c: int) -> Seq<char> {
    if bit_at(red, r * w + c) {
        seq!['R', '|']
    } else if bit_at(blue, r * w + c) {
        seq!['B', '|']
    } else {
        seq![' ', '|']
    }
}

/// The first `k` cells of board row `r`.
pub open spec fn row_text(red: Seq<bool>, blue: Seq<bool>, w: int, r: int, k: int) -> Seq<char>
    decreases k,
{
    if k <= 0 {
        Seq::empty()
    } else {
        row_text(red, blue, w, r, k - 1) + cell_text(red, blue, w, r, k - 1)
    }
}

/// The first `k` lines of the picture, top row first, each ending in a newline.
pub open spec fn rows_text(red: Seq<bool>, blue: Seq<bool>, h: int, w: int, k: int) -> Seq<char>
    decreases k,
{
    if k <= 0 {
        Seq::empty()
    } else {
        rows_text(red, blue, h, w, k - 1) + row_text(red, blue, w, h - k, w) + seq!['\n']
    }
}

/// The column footer for the first `k` columns: the last digit of each, then `|`.
pub open spec fn footer_text(k: int) -> Seq<char>
    decreases k,
{
    if k <= 0 {
        Seq::empty()
    } else {
        footer_text(k - 1) + seq![digit_char(((k - 1) % 10) as nat), '|']
    }
}

impl<const H: usize, const W: usize> State<H, W> {
    /// The board as text, top row first: `R|` for red, `B|` for blue and
    /// ` |` for an empty cell, then a line of column digits.
    pub fn render(&self) -> (s: String)
        requires
            self.wf(),
        ensures
            s@ == rows_text(self.discs(Color::Red), self.discs(Color::Blue), H as int, W as int, H as int)
                + footer_text(W as int),
    {
        let ghost red = self.red@;
        let ghost blue = self.blue@;
        let ghost h = H as int;
        let ghost w = W as int;
        let mut out: Vec<char> = Vec::new();
        let mut row: usize = 0;
        while row < H
            invariant
                H <= 255,
                W <= 256,
                row <= H,
                red == self.red@,
                blue == self.blue@,
                h == H,
                w == W,
                out@ == rows_text(red, blue, h, w, row as int),
            decreases H - row,
        {
            let r = H - 1 - row;
            let ghost before = out@;
            let mut col: usize = 0;
            while col < W
                invariant
                    H <= 255,
                    W <= 256,
                    row < H,
                    r == H - 1 - row,
                    col <= W,
                    red == self.red@,
                    blue == self.blue@,
                    w == W,
                    out@ == before + row_text(red, blue, w, r as int, col as int),
                decreases W - col,
            {
                proof {
                    assert(r * W + col <= 65536) by (nonlinear_arith)
                        requires
                            r < 255,
                            col < W,
                            W <= 256,
                    ;
                }
                let ghost mid = out@;
                if self.red.get((r, col)) {
                    out.push('R');
                    out.push('|');
                } else if self.blue.get((r, col)) {
                    out.push('B');
                    out.push('|');
                } else {
                    out.push(' ');
                    out.push('|');
                }
                assert(out@ == mid + cell_text(red, blue, w, r as int, col as int));
                col = col + 1;
            }
            out.push('\n');
            row = row + 1;
        }
        let ghost body = out@;
        let mut col: usize = 0;
        while col < W
            invariant
                col <= W,
                out@ == body + footer_text(col as int),
            decreases W - col,
        {
            out.push(digit_to_char(col % 10));
            out.push('|');
            col = col + 1;
        }
        string_of(out.as_slice())
    }
}


/// The listed moves go into columns with room.
proof fn lemma_open_moves(hs: Seq<u8>, h: int, k: int, m: Move)
    requires
        k <= 256,
        open_moves(hs, h, k).contains(m),
    ensures
        (m.0 as int) < k,
        hs[m.0 as int] < h,
    decreases k,
{
    if k > 0 {
        let rest = open_moves(hs, h, k - 1);
        if rest.contains(m) {
            lemma_open_moves(hs, h, k - 1, m);
        } else {
            let i = choose|i: int| 0 <= i < open_moves(hs, h, k).len() && open_moves(hs, h, k)[i] == m;
            if hs[k - 1] < h {
                if i < rest.len() {
                    assert(rest[i] == m);
                }
            }
        }
    }
}

/// Every column on the board with room is listed.
proof fn lemma_open_moves_complete(hs: Seq<u8>, h: int, k: int, c: int)
    requires
        k <= 256,
        0 <= c < k,
        hs[c] < h,
    ensures
        open_moves(hs, h, k).contains(Move(c as u8)),
    decreases k,
{
    let rest = open_moves(hs, h, k - 1);
    if c < k - 1 {
        lemma_open_moves_complete(hs, h, k - 1, c);
        let i = choose|i: int| 0 <= i < rest.len() && rest[i] == Move(c as u8);
        if hs[k - 1] < h {
            assert(open_moves(hs, h, k)[i] == Move(c as u8));
        }
    } else {
        assert(open_moves(hs, h, k) == rest.push(Move(c as u8)));
        assert(open_moves(hs, h, k)[rest.len() as int] == Move(c as u8));
    }
}

/// The columns `legal_actions` lists are exactly the columns of the board
/// that still have room: a column is listed if and only if it is below `W`
/// and holds fewer than `H` discs.
pub proof fn law_open_columns_listed<const H: usize, const W: usize>(s: State<H, W>, c: int)
    requires
        s.wf(),
        0 <= c < W,
    ensures
        open_moves(s.heights(), H as int, W as int).contains(Move(c as u8)) <==> s.heights()[c] < H,
{
    if s.heights()[c] < H {
        lemma_open_moves_complete(s.heights(), H as int, W as int, c);
    }
    if open_moves(s.heights(), H as int, W as int).contains(Move(c as u8)) {
        lemma_open_moves(s.heights(), H as int, W as int, Move(c as u8));
    }
}

/// Every move `legal_actions` lists can be played: its column is on the
/// board and has room, so `apply_action` accepts it.
pub proof fn law_legal_moves_playable<const H: usize, const W: usize>(s: State<H, W>, m: Move)
    requires
        s.wf(),
        open_moves(s.heights(), H as int, W as int).contains(m),
    ensures
        (m.0 as int) < W,
        s.heights()[m.0 as int] < H,
{
    lemma_open_moves(s.heights(), H as int, W as int, m);
}

} // verus!
