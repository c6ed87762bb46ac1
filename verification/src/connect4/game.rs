//! Connect 4 board state, piece dropping and line detection.
use vstd::prelude::*;

verus! {

/// The two Connect 4 players.
#[derive(Debug, Clone, Copy, PartialEq, Eq, Hash, Structural)]
pub enum Player {
    /// Moves first (index 0).
    Red,
    /// Moves second (index 1).
    Yellow,
}

impl Player {
    pub open spec fn spec_other(self) -> Player {
        match self {
            Player::Red => Player::Yellow,
            Player::Yellow => Player::Red,
        }
    }

    pub open spec fn spec_index(self) -> int {
        match self {
            Player::Red => 0,
            Player::Yellow => 1,
        }
    }

    /// The opponent.
    pub fn other(self) -> (o: Self)
        ensures
            o == self.spec_other(),
    {
        match self {
            Player::Red => Player::Yellow,
            Player::Yellow => Player::Red,
        }
    }

    /// 0 for Red, 1 for Yellow.
    pub fn index(self) -> (i: usize)
        ensures
            i == self.spec_index(),
    {
        match self {
            Player::Red => 0,
            Player::Yellow => 1,
        }
    }

    /// `'R'` for Red, `'Y'` for Yellow.
    pub fn symbol(self) -> (ch: char)
        ensures
            ch == (if self == Player::Red { 'R' } else { 'Y' }),
    {
        match self {
            Player::Red => 'R',
            Player::Yellow => 'Y',
        }
    }
}

/// Connect 4 board with `R` rows and `C` columns; row 0 is the top.
#[derive(Debug, Clone, PartialEq, Eq, Hash)]
pub struct Connect4State<const R: usize, const C: usize> {
    /// Cells, `board[row][col]`.
    pub board: [[Option<Player>; C]; R],
    /// Player to move.
    pub current_player: Player,
}

/// Cell at offset `t` from `(r, c)` along direction `d`: 0 is horizontal,
/// 1 vertical, 2 the diagonal going down-right, 3 the diagonal going up-right.
pub open spec fn line_cell(d: int, r: int, c: int, t: int) -> (int, int) {
    if d == 0 {
        (r, c + t)
    } else if d == 1 {
        (r + t, c)
    } else if d == 2 {
        (r + t, c + t)
    } else {
        (r - t, c + t)
    }
}

impl<const R: usize, const C: usize> Connect4State<R, C> {
    pub open spec fn cell(&self, r: int, c: int) -> Option<Player> {
        self.board@[r]@[c]
    }

    /// `(r, c)` is on the board and holds a checker of `p`.
    pub open spec fn owns(&self, r: int, c: int, p: Player) -> bool {
        0 <= r < R && 0 <= c < C && self.cell(r, c) == Some(p)
    }

    /// The four cells at offsets `t..t+4` from `(r, c)` along `d` all hold `p`.
    pub open spec fn four(&self, r: int, c: int, d: int, t: int, p: Player) -> bool {
        &&& self.on_line(r, c, d, t, p)
        &&& self.on_line(r, c, d, t + 1, p)
        &&& self.on_line(r, c, d, t + 2, p)
        &&& self.on_line(r, c, d, t + 3, p)
    }

    /// The cell at offset `t` from `(r, c)` along `d` holds `p`.
    pub open spec fn on_line(&self, r: int, c: int, d: int, t: int, p: Player) -> bool {
        self.owns(line_cell(d, r, c, t).0, line_cell(d, r, c, t).1, p)
    }

    /// Some line of four checkers of `p` passes through `(r, c)`.
    pub open spec fn win_through(&self, r: int, c: int, p: Player) -> bool {
        exists|d: int, k: int| 0 <= d < 4 && 0 <= k < 4 && #[trigger] self.four(r, c, d, -k, p)
    }

    /// Some line of four checkers of `p` is on the board.
    pub open spec fn spec_has_won(&self, p: Player) -> bool {
        exists|r: int, c: int, d: int| 0 <= d < 4 && #[trigger] self.four(r, c, d, 0, p)
    }

    pub open spec fn spec_column_full(&self, col: int) -> bool {
        self.cell(0, col) is Some
    }

    pub open spec fn spec_board_full(&self) -> bool {
        forall|c: int| 0 <= c < C ==> #[trigger] self.spec_column_full(c)
    }

    /// Creates an empty board with Red to move.
    pub fn new() -> (s: Self)
        ensures
            forall|r: int, c: int| 0 <= r < R && 0 <= c < C ==> s.cell(r, c) is None,
            s.current_player == Player::Red,
    {
        Connect4State { board: [[None; C]; R], current_player: Player::Red }
    }

    fn holds(&self, r: usize, c: usize, p: Player) -> (b: bool)
        requires
            r < R,
            c < C,
        ensures
            b == (self.cell(r as int, c as int) == Some(p)),
    {
        match self.board[r][c] {
            Some(q) => q == p,
            None => false,
        }
    }

    /// Whether column `col` can take no more checkers.
    pub fn is_column_full(&self, col: usize) -> (b: bool)
        requires
            R >= 1,
            col < C,
        ensures
            b == self.spec_column_full(col as int),
    {
        self.board[0][col].is_some()
    }

    /// Whether every column is full.
    pub fn is_board_full(&self) -> (b: bool)
        requires
            R >= 1,
        ensures
            b == self.spec_board_full(),
    {
        let mut c: usize = 0;
        while c < C
            invariant
                c <= C,
                R >= 1,
                forall|k: int| 0 <= k < c ==> #[trigger] self.spec_column_full(k),
            decreases C - c,
        {
            if !self.is_column_full(c) {
                return false;
            }
            c += 1;
        }
        true
    }

    /// Fills `out` with the columns that are not full, in increasing order.
    pub fn legal_actions(&self, out: &mut Vec<usize>)
        requires
            R >= 1,
        ensures
            forall|i: int| 0 <= i < final(out)@.len() ==> (#[trigger] final(out)@[i]) < C && !self.spec_column_full(final(out)@[i] as int),
            forall|c: int| 0 <= c < C && !#[trigger] self.spec_column_full(c) ==> final(out)@.contains(c as usize),
            forall|i: int, j: int| 0 <= i < j < final(out)@.len() ==> final(out)@[i] < final(out)@[j],
    {
        out.clear();
        let mut col: usize = 0;
        while col < C
            invariant
                col <= C,
                R >= 1,
                forall|i: int| 0 <= i < out@.len() ==> (#[trigger] out@[i]) < col && !self.spec_column_full(out@[i] as int),
                forall|c: int| 0 <= c < col && !#[trigger] self.spec_column_full(c) ==> out@.contains(c as usize),
                forall|i: int, j: int| 0 <= i < j < out@.len() ==> out@[i] < out@[j],
            decreases C - col,
        {
            if !self.is_column_full(col) {
                let ghost before = out@;
                out.push(col);
                proof {
                    assert forall|c: int| 0 <= c < col + 1 && !#[trigger] self.spec_column_full(c) implies out@.contains(c as usize) by {
                        if c < col {
                            let i = choose|i: int| 0 <= i < before.len() && before[i] == c as usize;
                            assert(out@[i] == c as usize);
                        } else {
                            assert(out@[before.len() as int] == col);
                        }
                    }
                }
            }
            col += 1;
        }
    }

    /// Drops a checker of the player to move into column `col`.
    ///
    /// Returns the row where it lands (the lowest empty cell of the column),
    /// or an error when the column does not exist or is full.
    pub fn drop_piece(&mut self, col: usize) -> (res: Result<usize, &'static str>)
        requires
            R >= 1,
        ensures
            res is Err <==> (col >= C || old(self).spec_column_full(col as int)),
            col >= C ==> res == Err::<usize, &'static str>("Column index out of bounds"),
            (col < C && old(self).spec_column_full(col as int)) ==> res == Err::<usize, &'static str>("Column is already full"),
            res is Err ==> *final(self) == *old(self),
            res matches Ok(row) ==> {
                &&& row < R
                &&& old(self).cell(row as int, col as int) is None
                &&& forall|r: int| row < r < R ==> #[trigger] old(self).cell(r, col as int) is Some
                &&& final(self).current_player == old(self).current_player
                &&& forall|r: int, c: int| 0 <= r < R && 0 <= c < C ==> #[trigger] final(self).cell(r, c) == if r == row && c == col {
                    Some(old(self).current_player)
                } else {
                    old(self).cell(r, c)
                }
            },
    {
        if col >= C {
            return Err("Column index out of bounds");
        }
        if self.is_column_full(col) {
            return Err("Column is already full");
        }
        let mut row: usize = R;
        while row > 0
            invariant
                row <= R,
                R >= 1,
                col < C,
                *self == *old(self),
                self.cell(0, col as int) is None,
                forall|r: int| row <= r < R ==> #[trigger] self.cell(r, col as int) is Some,
            decreases row,
        {
            row -= 1;
            if self.board[row][col].is_none() {
                let ghost before = *self;
                self.board[row][col] = Some(self.current_player);
                proof {
                    assert forall|r: int, c: int| 0 <= r < R && 0 <= c < C implies #[trigger] self.cell(r, c) == if r == row && c == col {
                        Some(before.current_player)
                    } else {
                        before.cell(r, c)
                    } by {
                        if r != row {
                            assert(self.board@[r] == before.board@[r]);
                        }
                    }
                }
                return Ok(row);
            }
        }
        Err("No available row in column")
    }
}


fn min_usize(a: usize, b: usize) -> (m: usize)
    ensures
        m == if a <= b { a } else { b },
{
    if a <= b {
        a
    } else {
        b
    }
}

impl<const R: usize, const C: usize> Connect4State<R, C> {
    /// Looks along direction `d` from `(r, c)` at the offsets `lo..=hi`
    /// (`len` of them, starting at cell `(sr, sc)`) for four consecutive
    /// checkers of `p`.
    fn scan(
        &self,
        d: u8,
        sr: usize,
        sc: usize,
        len: usize,
        p: Player,
        Ghost(r): Ghost<int>,
        Ghost(c): Ghost<int>,
        Ghost(lo): Ghost<int>,
    ) -> (b: bool)
        requires
            d < 4,
            len >= 1,
            (sr as int, sc as int) == line_cell(d as int, r, c, lo),
            forall|t: int|
                lo <= t < lo + len ==> 0 <= (#[trigger] line_cell(d as int, r, c, t)).0 < R && 0 <= line_cell(
                    d as int,
                    r,
                    c,
                    t,
                ).1 < C,
        ensures
            b == exists|t0: int| lo <= t0 && t0 + 4 <= lo + len && #[trigger] self.four(r, c, d as int, t0, p),
    {
        let mut row = sr;
        let mut col = sc;
        let mut count: usize = 0;
        let mut idx: usize = 0;
        while idx < len
            invariant
                d < 4,
                idx <= len,
                count <= 3,
                count <= idx,
                idx < len ==> (row as int, col as int) == line_cell(d as int, r, c, lo + idx),
                forall|t: int|
                    lo <= t < lo + len ==> 0 <= (#[trigger] line_cell(d as int, r, c, t)).0 < R && 0 <= line_cell(
                        d as int,
                        r,
                        c,
                        t,
                    ).1 < C,
                forall|i: int|
                    0 <= i < count ==> self.owns(
                        #[trigger] line_cell(d as int, r, c, lo + idx - 1 - i).0,
                        line_cell(d as int, r, c, lo + idx - 1 - i).1,
                        p,
                    ),
                count < idx ==> !self.owns(
                    line_cell(d as int, r, c, lo + idx - 1 - count).0,
                    line_cell(d as int, r, c, lo + idx - 1 - count).1,
                    p,
                ),
                forall|t0: int| lo <= t0 && t0 + 4 <= lo + idx ==> !#[trigger] self.four(r, c, d as int, t0, p),
            decreases len - idx,
        {
            let ghost t = lo + idx;
            if self.holds(row, col, p) {
                if count == 3 {
                    assert(self.owns(line_cell(d as int, r, c, lo + idx - 1 - 0).0, line_cell(d as int, r, c, lo + idx - 1 - 0).1, p));
                    assert(self.owns(line_cell(d as int, r, c, lo + idx - 1 - 1).0, line_cell(d as int, r, c, lo + idx - 1 - 1).1, p));
                    assert(self.owns(line_cell(d as int, r, c, lo + idx - 1 - 2).0, line_cell(d as int, r, c, lo + idx - 1 - 2).1, p));
                    assert(self.on_line(r, c, d as int, t, p));
                    assert(self.four(r, c, d as int, t - 3, p));
                    return true;
                }
                proof {
                    if t - 3 >= lo {
                        let j = t - 1 - count;
                        assert(!self.owns(line_cell(d as int, r, c, j).0, line_cell(d as int, r, c, j).1, p));
                        assert(line_cell(d as int, r, c, t - 3 + (j - (t - 3))) == line_cell(d as int, r, c, j));
                        assert(!self.four(r, c, d as int, t - 3, p));
                    }
                    assert forall|i: int| 0 <= i < count + 1 implies self.owns(
                        #[trigger] line_cell(d as int, r, c, lo + (idx + 1) - 1 - i).0,
                        line_cell(d as int, r, c, lo + (idx + 1) - 1 - i).1,
                        p,
                    ) by {
                        if i > 0 {
                            assert(line_cell(d as int, r, c, lo + (idx + 1) - 1 - i) == line_cell(d as int, r, c, lo + idx - 1 - (i - 1)));
                        }
                    }
                }
                count += 1;
            } else {
                proof {
                    assert(line_cell(d as int, r, c, t - 3 + 3) == line_cell(d as int, r, c, t));
                    assert(!self.four(r, c, d as int, t - 3, p));
                }
                count = 0;
            }
            if idx + 1 < len {
                assert(0 <= line_cell(d as int, r, c, t + 1).0 < R);
                if d == 0 {
                    col += 1;
                } else if d == 1 {
                    row += 1;
                } else if d == 2 {
                    row += 1;
                    col += 1;
                } else {
                    row -= 1;
                    col += 1;
                }
            }
            idx += 1;
        }
        false
    }
}


impl<const R: usize, const C: usize> Connect4State<R, C> {
    pub open spec fn on_board(rc: (int, int)) -> bool {
        0 <= rc.0 < R && 0 <= rc.1 < C
    }

    proof fn lemma_window(&self, r: int, c: int, d: int, lo: int, hi: int, p: Player)
        requires
            0 <= d < 4,
            -3 <= lo <= 0 <= hi <= 3,
            forall|t: int| lo <= t <= hi ==> Self::on_board(#[trigger] line_cell(d, r, c, t)),
            lo > -3 ==> !Self::on_board(line_cell(d, r, c, lo - 1)),
            hi < 3 ==> !Self::on_board(line_cell(d, r, c, hi + 1)),
        ensures
            (exists|t0: int| lo <= t0 && t0 + 4 <= hi + 1 && #[trigger] self.four(r, c, d, t0, p)) <==> (exists|k: int|
                0 <= k < 4 && #[trigger] self.four(r, c, d, -k, p)),
    {
        if exists|k: int| 0 <= k < 4 && #[trigger] self.four(r, c, d, -k, p) {
            let k = choose|k: int| 0 <= k < 4 && #[trigger] self.four(r, c, d, -k, p);
            if -k < lo {
                assert(line_cell(d, r, c, -k + (lo - 1 + k)) == line_cell(d, r, c, lo - 1));
                assert(self.owns(line_cell(d, r, c, -k + (lo - 1 + k)).0, line_cell(d, r, c, -k + (lo - 1 + k)).1, p));
            }
            if -k + 3 > hi {
                assert(line_cell(d, r, c, -k + (hi + 1 + k)) == line_cell(d, r, c, hi + 1));
                assert(self.owns(line_cell(d, r, c, -k + (hi + 1 + k)).0, line_cell(d, r, c, -k + (hi + 1 + k)).1, p));
            }
            assert(lo <= -k && -k + 4 <= hi + 1);
        }
        if exists|t0: int| lo <= t0 && t0 + 4 <= hi + 1 && #[trigger] self.four(r, c, d, t0, p) {
            let t0 = choose|t0: int| lo <= t0 && t0 + 4 <= hi + 1 && #[trigger] self.four(r, c, d, t0, p);
            assert(self.four(r, c, d, -(-t0), p));
        }
    }

    /// Whether a line of four checkers of `p` passes through `(r, c)`
    /// (horizontally, vertically or along either diagonal).
    pub fn check_win_at(&self, r: usize, c: usize, p: Player) -> (b: bool)
        requires
            r < R,
            c < C,
        ensures
            b == self.win_through(r as int, c as int, p),
    {
        let ri = Ghost(r as int);
        let ci = Ghost(c as int);
        let mut found = false;
        let mut d: u8 = 0;
        while d < 4
            invariant
                r < R,
                c < C,
                d <= 4,
                ri@ == r,
                ci@ == c,
                found == exists|dd: int, k: int| 0 <= dd < d && 0 <= k < 4 && #[trigger] self.four(r as int, c as int, dd, -k, p),
            decreases 4 - d,
        {
            let (back, fwd, sr, sc) = Self::window(r, c, d);
            let ghost lo = -(back as int);
            let ghost hi = fwd as int;
            let hit = self.scan(d, sr, sc, back + fwd + 1, p, ri, ci, Ghost(lo));
            proof {
                self.lemma_window(r as int, c as int, d as int, lo, hi, p);
                assert(hit == exists|k: int| 0 <= k < 4 && #[trigger] self.four(r as int, c as int, d as int, -k, p));
                if hit {
                    let k = choose|k: int| 0 <= k < 4 && #[trigger] self.four(r as int, c as int, d as int, -k, p);
                    assert(self.four(r as int, c as int, d as int, -k, p));
                }
            }
            if hit {
                found = true;
            }
            d += 1;
        }
        found
    }

    /// The offsets `-back..=fwd` from `(r, c)` along `d` that stay on the
    /// board and within distance 3, and the cell at offset `-back`.
    fn window(r: usize, c: usize, d: u8) -> (w: (usize, usize, usize, usize))
        requires
            r < R,
            c < C,
            d < 4,
        ensures
            w.0 <= 3,
            w.1 <= 3,
            (w.2 as int, w.3 as int) == line_cell(d as int, r as int, c as int, -(w.0 as int)),
            forall|t: int| -(w.0 as int) <= t <= w.1 ==> Self::on_board(#[trigger] line_cell(d as int, r as int, c as int, t)),
            w.0 < 3 ==> !Self::on_board(line_cell(d as int, r as int, c as int, -(w.0 as int) - 1)),
            w.1 < 3 ==> !Self::on_board(line_cell(d as int, r as int, c as int, w.1 + 1)),
    {
        if d == 0 {
            let back = min_usize(c, 3);
            let fwd = min_usize(3, C - 1 - c);
            (back, fwd, r, c - back)
        } else if d == 1 {
            let back = min_usize(r, 3);
            let fwd = min_usize(3, R - 1 - r);
            (back, fwd, r - back, c)
        } else if d == 2 {
            let back = min_usize(min_usize(r, c), 3);
            let fwd = min_usize(min_usize(R - 1 - r, C - 1 - c), 3);
            (back, fwd, r - back, c - back)
        } else {
            let back = min_usize(min_usize(R - 1 - r, c), 3);
            let fwd = min_usize(min_usize(r, C - 1 - c), 3);
            (back, fwd, r + back, c - back)
        }
    }

    proof fn lemma_four_shift(&self, r: int, c: int, d: int, t0: int, p: Player)
        requires
            0 <= d < 4,
        ensures
            self.four(r, c, d, t0, p) == self.four(line_cell(d, r, c, t0).0, line_cell(d, r, c, t0).1, d, 0, p),
    {
        let r2 = line_cell(d, r, c, t0).0;
        let c2 = line_cell(d, r, c, t0).1;
        assert(line_cell(d, r2, c2, 0) == line_cell(d, r, c, t0));
        assert(line_cell(d, r2, c2, 1) == line_cell(d, r, c, t0 + 1));
        assert(line_cell(d, r2, c2, 2) == line_cell(d, r, c, t0 + 2));
        assert(line_cell(d, r2, c2, 3) == line_cell(d, r, c, t0 + 3));
    }

    /// Whether `p` has a line of four anywhere on the board.
    pub fn has_won(&self, p: Player) -> (b: bool)
        ensures
            b == self.spec_has_won(p),
    {
        let mut r: usize = 0;
        while r < R
            invariant
                r <= R,
                forall|rr: int, cc: int|
                    0 <= rr < r && 0 <= cc < C ==> !(self.owns(rr, cc, p) && #[trigger] self.win_through(rr, cc, p)),
            decreases R - r,
        {
            let mut c: usize = 0;
            while c < C
                invariant
                    r < R,
                    c <= C,
                    forall|rr: int, cc: int|
                        0 <= rr < r && 0 <= cc < C ==> !(self.owns(rr, cc, p) && #[trigger] self.win_through(rr, cc, p)),
                    forall|cc: int|
                        0 <= cc < c ==> !(self.owns(r as int, cc, p) && #[trigger] self.win_through(r as int, cc, p)),
                decreases C - c,
            {
                if self.holds(r, c, p) && self.check_win_at(r, c, p) {
                    proof {
                        let (d, k) = choose|d: int, k: int| 0 <= d < 4 && 0 <= k < 4 && #[trigger] self.four(r as int, c as int, d, -k, p);
                        self.lemma_four_shift(r as int, c as int, d, -k, p);
                        let st = line_cell(d, r as int, c as int, -k);
                        assert(self.four(st.0, st.1, d, 0, p));
                    }
                    return true;
                }
                c += 1;
            }
            r += 1;
        }
        proof {
            if self.spec_has_won(p) {
                let (r0, c0, d) = choose|r0: int, c0: int, d: int| 0 <= d < 4 && #[trigger] self.four(r0, c0, d, 0, p);
                assert(line_cell(d, r0, c0, 0int + 0int) == (r0, c0));
                assert(self.owns(r0, c0, p));
                assert(self.four(r0, c0, d, -0int, p));
                assert(self.win_through(r0, c0, p));
            }
        }
        false
    }
}

} // verus!
