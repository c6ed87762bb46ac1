//! The Sequence board: card layout, coordinates, and detection of completed
//! five-in-a-row sequences.
use vstd::prelude::*;

verus! {

/// Side of the square board.
pub const BOARD_DIM: usize = 10;

/// Number of board cells.
pub const BOARD_CELLS: usize = 100;

/// A playing card, by the index characters of its rank (`A K Q J T 9 .. 2`)
/// and suit (`S H D C`).
#[derive(Clone, Copy, Debug, PartialEq, Eq, Hash, Structural)]
pub struct Card {
    /// Rank index: `A`, `K`, `Q`, `J`, `T`, `9` down to `2`.
    pub rank: char,
    /// Suit index: `S`, `H`, `D` or `C`.
    pub suit: char,
}

/// What is printed on a board cell.
#[derive(Clone, Copy, Debug, PartialEq, Eq, Hash, Structural)]
pub enum BoardCell {
    /// A corner: free for every team.
    Corner,
    /// A card space.
    Card(Card),
}

/// The card `rank` of `suit`.
pub open spec fn card(rank: char, suit: char) -> Card {
    Card { rank, suit }
}

/// Jack of clubs or of diamonds: wild, placed on any free non-corner cell.
pub open spec fn spec_two_eyed(c: Card) -> bool {
    c.rank == 'J' && (c.suit == 'C' || c.suit == 'D')
}

/// Jack of spades or of hearts: removes an opponent's chip.
pub open spec fn spec_one_eyed(c: Card) -> bool {
    c.rank == 'J' && (c.suit == 'S' || c.suit == 'H')
}

/// Whether `card` is a two-eyed jack (clubs or diamonds).
pub fn is_two_eyed_jack(card: Card) -> (b: bool)
    ensures
        b == spec_two_eyed(card),
{
    card.rank == 'J' && (card.suit == 'C' || card.suit == 'D')
}

/// Whether `card` is a one-eyed jack (spades or hearts).
pub fn is_one_eyed_jack(card: Card) -> (b: bool)
    ensures
        b == spec_one_eyed(card),
{
    card.rank == 'J' && (card.suit == 'S' || card.suit == 'H')
}

/// Whether `card` is a jack of either kind.
pub fn is_jack(card: Card) -> (b: bool)
    ensures
        b == (spec_two_eyed(card) || spec_one_eyed(card)),
{
    is_two_eyed_jack(card) || is_one_eyed_jack(card)
}

/// Flat index of `(r, c)`.
pub fn coord_to_index(r: u8, c: u8) -> (i: usize)
    ensures
        i == r * 10 + c,
{
    r as usize * BOARD_DIM + c as usize
}

/// Row and column of a flat index, each cut to a byte.
pub fn index_to_coord(idx: usize) -> (rc: (u8, u8))
    ensures
        rc.0 == (idx / 10) as u8,
        rc.1 == (idx % 10) as u8,
        idx < 2560 ==> rc.0 == idx / 10 && rc.1 == idx % 10,
{
    ((idx / BOARD_DIM) as u8, (idx % BOARD_DIM) as u8)
}

/// The four corner cells.
pub open spec fn spec_corner_index(i: int) -> bool {
    i == 0 || i == 9 || i == 90 || i == 99
}

/// Whether flat index `idx` is a corner.
pub fn is_corner_index(idx: usize) -> (b: bool)
    ensures
        b == spec_corner_index(idx as int),
{
    idx == 0 || idx == 9 || idx == 90 || idx == 99
}

/// Whether `(r, c)` is a corner.
pub fn is_corner(r: u8, c: u8) -> (b: bool)
    ensures
        b == ((r == 0 || r == 9) && (c == 0 || c == 9)),
{
    (r == 0 || r == 9) && (c == 0 || c == 9)
}

/// A card space.
pub open spec fn cell(rank: char, suit: char) -> BoardCell {
    BoardCell::Card(Card { rank, suit })
}

/// The board, row by row: four corners and each of the 48 non-jack cards twice.
pub open spec fn layout() -> Seq<BoardCell> {
    seq![
        BoardCell::Corner, cell('2', 'S'), cell('3', 'S'), cell('4', 'S'), cell('5', 'S'), cell('6', 'S'), cell('7', 'S'), cell('8', 'S'), cell('9', 'S'), BoardCell::Corner,
        cell('6', 'C'), cell('5', 'C'), cell('4', 'C'), cell('3', 'C'), cell('2', 'C'), cell('A', 'H'), cell('K', 'H'), cell('Q', 'H'), cell('T', 'H'), cell('T', 'S'),
        cell('7', 'C'), cell('A', 'S'), cell('2', 'D'), cell('3', 'D'), cell('4', 'D'), cell('5', 'D'), cell('6', 'D'), cell('7', 'D'), cell('9', 'H'), cell('Q', 'S'),
        cell('8', 'C'), cell('K', 'S'), cell('6', 'C'), cell('5', 'C'), cell('4', 'C'), cell('3', 'C'), cell('2', 'C'), cell('8', 'D'), cell('8', 'H'), cell('K', 'S'),
        cell('9', 'C'), cell('Q', 'S'), cell('7', 'C'), cell('6', 'H'), cell('5', 'H'), cell('4', 'H'), cell('A', 'H'), cell('9', 'D'), cell('7', 'H'), cell('A', 'S'),
        cell('T', 'C'), cell('T', 'S'), cell('8', 'C'), cell('7', 'H'), cell('2', 'H'), cell('3', 'H'), cell('K', 'H'), cell('T', 'D'), cell('6', 'H'), cell('2', 'D'),
        cell('Q', 'C'), cell('9', 'S'), cell('9', 'C'), cell('8', 'H'), cell('9', 'H'), cell('T', 'H'), cell('Q', 'H'), cell('Q', 'D'), cell('5', 'H'), cell('3', 'D'),
        cell('K', 'C'), cell('8', 'S'), cell('T', 'C'), cell('Q', 'C'), cell('K', 'C'), cell('A', 'C'), cell('A', 'D'), cell('K', 'D'), cell('4', 'H'), cell('4', 'D'),
        cell('A', 'C'), cell('7', 'S'), cell('6', 'S'), cell('5', 'S'), cell('4', 'S'), cell('3', 'S'), cell('2', 'S'), cell('2', 'H'), cell('3', 'H'), cell('5', 'D'),
        BoardCell::Corner, cell('A', 'D'), cell('K', 'D'), cell('Q', 'D'), cell('T', 'D'), cell('9', 'D'), cell('8', 'D'), cell('7', 'D'), cell('6', 'D'), BoardCell::Corner,
    ]
}

/// The layout's corner spaces are exactly the four corners of the board:
/// cell `(r, c)` (index `r * 10 + c`) is a corner space exactly when `r` and
/// `c` are each 0 or 9.
#[verifier::rlimit(100)]
pub proof fn law_layout_corners(r: int, c: int)
    requires
        0 <= r < 10,
        0 <= c < 10,
    ensures
        (layout()[r * 10 + c] == BoardCell::Corner) <==> spec_corner_index(r * 10 + c),
        spec_corner_index(r * 10 + c) <==> ((r == 0 || r == 9) && (c == 0 || c == 9)),
{
    let l = layout();
    assert(l.len() == 100);
    assert(l[0] == BoardCell::Corner && l[9] == BoardCell::Corner && l[90] == BoardCell::Corner && l[99]
        == BoardCell::Corner);
    assert(forall|i: int| 0 <= i < 100 && !spec_corner_index(i) ==> #[trigger] l[i] is Card);
}

fn mk(rank: char, suit: char) -> (b: BoardCell)
    ensures
        b == cell(rank, suit),
{
    BoardCell::Card(Card { rank, suit })
}

/// The board layout, row by row.
pub fn board_layout() -> (b: [BoardCell; 100])
    ensures
        b@ == layout(),
{
    let b: [BoardCell; 100] = [
        BoardCell::Corner, mk('2', 'S'), mk('3', 'S'), mk('4', 'S'), mk('5', 'S'), mk('6', 'S'), mk('7', 'S'), mk('8', 'S'), mk('9', 'S'), BoardCell::Corner,
        mk('6', 'C'), mk('5', 'C'), mk('4', 'C'), mk('3', 'C'), mk('2', 'C'), mk('A', 'H'), mk('K', 'H'), mk('Q', 'H'), mk('T', 'H'), mk('T', 'S'),
        mk('7', 'C'), mk('A', 'S'), mk('2', 'D'), mk('3', 'D'), mk('4', 'D'), mk('5', 'D'), mk('6', 'D'), mk('7', 'D'), mk('9', 'H'), mk('Q', 'S'),
        mk('8', 'C'), mk('K', 'S'), mk('6', 'C'), mk('5', 'C'), mk('4', 'C'), mk('3', 'C'), mk('2', 'C'), mk('8', 'D'), mk('8', 'H'), mk('K', 'S'),
        mk('9', 'C'), mk('Q', 'S'), mk('7', 'C'), mk('6', 'H'), mk('5', 'H'), mk('4', 'H'), mk('A', 'H'), mk('9', 'D'), mk('7', 'H'), mk('A', 'S'),
        mk('T', 'C'), mk('T', 'S'), mk('8', 'C'), mk('7', 'H'), mk('2', 'H'), mk('3', 'H'), mk('K', 'H'), mk('T', 'D'), mk('6', 'H'), mk('2', 'D'),
        mk('Q', 'C'), mk('9', 'S'), mk('9', 'C'), mk('8', 'H'), mk('9', 'H'), mk('T', 'H'), mk('Q', 'H'), mk('Q', 'D'), mk('5', 'H'), mk('3', 'D'),
        mk('K', 'C'), mk('8', 'S'), mk('T', 'C'), mk('Q', 'C'), mk('K', 'C'), mk('A', 'C'), mk('A', 'D'), mk('K', 'D'), mk('4', 'H'), mk('4', 'D'),
        mk('A', 'C'), mk('7', 'S'), mk('6', 'S'), mk('5', 'S'), mk('4', 'S'), mk('3', 'S'), mk('2', 'S'), mk('2', 'H'), mk('3', 'H'), mk('5', 'D'),
        BoardCell::Corner, mk('A', 'D'), mk('K', 'D'), mk('Q', 'D'), mk('T', 'D'), mk('9', 'D'), mk('8', 'D'), mk('7', 'D'), mk('6', 'D'), BoardCell::Corner,
    ];
    proof {
        assert(b@ =~= layout());
    }
    b
}


/// A completed five-cell sequence of a team.
#[derive(Clone, Copy, Debug, PartialEq, Eq)]
pub struct SequenceRecord {
    /// The team that completed it.
    pub team: u8,
    /// Its five cells, ascending.
    pub cells: [u8; 5],
}

/// A record as plain values: team and cells.
pub open spec fn rec_view(r: SequenceRecord) -> (u8, Seq<u8>) {
    (r.team, r.cells@)
}

/// The records of `v` as plain values.
pub open spec fn recs_view(v: Seq<SequenceRecord>) -> Seq<(u8, Seq<u8>)> {
    v.map_values(|r: SequenceRecord| rec_view(r))
}

/// Inserts `x` before the first element not below it.
pub open spec fn insert_sorted(s: Seq<u8>, x: u8) -> Seq<u8>
    decreases s.len(),
{
    if s.len() == 0 {
        seq![x]
    } else if x <= s[0] {
        seq![x] + s
    } else {
        seq![s[0]] + insert_sorted(s.drop_first(), x)
    }
}

/// `s` in ascending order (insertion sort).
pub open spec fn sort_seq(s: Seq<u8>) -> Seq<u8>
    decreases s.len(),
{
    if s.len() == 0 {
        Seq::empty()
    } else {
        insert_sorted(sort_seq(s.drop_last()), s.last())
    }
}

/// Whether `s` is in ascending order.
pub open spec fn ascending(s: Seq<u8>) -> bool {
    forall|i: int, j: int| 0 <= i <= j < s.len() ==> s[i] <= s[j]
}

/// The first position in `s` at or after `k` holding a value not below `x`.
pub open spec fn insert_point(s: Seq<u8>, x: u8, k: int) -> int
    decreases s.len() - k,
{
    if k >= s.len() || k < 0 {
        s.len() as int
    } else if x <= s[k] {
        k
    } else {
        insert_point(s, x, k + 1)
    }
}

/// Insertion is a split at the insertion point.
proof fn lemma_insert_split(s: Seq<u8>, x: u8)
    ensures
        insert_sorted(s, x) == s.take(insert_point(s, x, 0)) + seq![x] + s.skip(insert_point(s, x, 0)),
        0 <= insert_point(s, x, 0) <= s.len(),
    decreases s.len(),
{
    if s.len() == 0 {
        assert(s.take(0) + seq![x] + s.skip(0) =~= seq![x]);
    } else if x <= s[0] {
        assert(s.take(0) + seq![x] + s.skip(0) =~= seq![x] + s);
    } else {
        let t = s.drop_first();
        lemma_insert_split(t, x);
        lemma_insert_point_shift(s, x, 0);
        let k = insert_point(t, x, 0);
        assert(seq![s[0]] + (t.take(k) + seq![x] + t.skip(k)) =~= s.take(k + 1) + seq![x] + s.skip(k + 1));
    }
}

/// The insertion point in `s` is one past that in its tail, when `s[0] < x`.
proof fn lemma_insert_point_shift(s: Seq<u8>, x: u8, k: int)
    requires
        s.len() > 0,
        x > s[0],
        0 <= k <= s.len() - 1,
    ensures
        insert_point(s, x, k + 1) == insert_point(s.drop_first(), x, k) + 1,
    decreases s.len() - k,
{
    if k + 1 < s.len() && !(x <= s[k + 1]) {
        lemma_insert_point_shift(s, x, k + 1);
    }
}

/// Inserts `x` into `v` at the first position whose value is not below `x`.
fn insert_into(v: &mut Vec<u8>, x: u8)
    ensures
        final(v)@ == insert_sorted(old(v)@, x),
{
    let ghost s = v@;
    let mut k: usize = 0;
    while k < v.len() && v[k] < x
        invariant
            v@ == s,
            k <= s.len(),
            insert_point(s, x, 0) == insert_point(s, x, k as int),
        decreases s.len() - k,
    {
        k = k + 1;
    }
    proof {
        lemma_insert_split(s, x);
        if k < s.len() {
            assert(insert_point(s, x, k as int) == k);
        }
    }
    v.insert(k, x);
    proof {
        assert(v@ =~= s.take(k as int) + seq![x] + s.skip(k as int));
    }
}

impl SequenceRecord {
    /// A record of `team` with `cells` put in ascending order.
    pub fn new(team: u8, cells: [u8; 5]) -> (r: Self)
        ensures
            r.team == team,
            r.cells@ == sort_seq(cells@),
    {
        let mut sorted: Vec<u8> = Vec::new();
        let mut i: usize = 0;
        while i < 5
            invariant
                i <= 5,
                sorted@ == sort_seq(cells@.take(i as int)),
            decreases 5 - i,
        {
            proof {
                assert(cells@.take(i + 1).drop_last() =~= cells@.take(i as int));
            }
            insert_into(&mut sorted, cells[i]);
            i = i + 1;
        }
        proof {
            assert(cells@.take(5) =~= cells@);
            lemma_sort_len(cells@);
        }
        let out: [u8; 5] = [sorted[0], sorted[1], sorted[2], sorted[3], sorted[4]];
        proof {
            assert(out@ =~= sorted@);
        }
        SequenceRecord { team, cells: out }
    }

    /// The number of non-corner cells of this record that `other` also holds.
    pub fn shared_non_corner_count(&self, other: &Self) -> (n: usize)
        ensures
            n == shared_count(self.cells@, other.cells@),
    {
        let mut count: usize = 0;
        let mut i: usize = 0;
        while i < 5
            invariant
                i <= 5,
                count == shared_count(self.cells@.take(i as int), other.cells@),
                count <= i,
            decreases 5 - i,
        {
            proof {
                assert(self.cells@.take(i + 1).drop_last() =~= self.cells@.take(i as int));
            }
            let c = self.cells[i];
            if !is_corner_index(c as usize) && holds(&other.cells, c) {
                count = count + 1;
            }
            i = i + 1;
        }
        proof {
            assert(self.cells@.take(5) =~= self.cells@);
        }
        count
    }
}

/// Sorting keeps the length.
proof fn lemma_sort_len(s: Seq<u8>)
    ensures
        sort_seq(s).len() == s.len(),
    decreases s.len(),
{
    if s.len() > 0 {
        lemma_sort_len(s.drop_last());
        lemma_insert_split(sort_seq(s.drop_last()), s.last());
    }
}

/// Sorting only reorders: every element of the result is from the input.
proof fn lemma_sort_contains(s: Seq<u8>)
    ensures
        sort_seq(s).len() == s.len(),
        forall|i: int| 0 <= i < sort_seq(s).len() ==> s.contains(#[trigger] sort_seq(s)[i]),
    decreases s.len(),
{
    lemma_sort_len(s);
    if s.len() > 0 {
        let p = s.drop_last();
        lemma_sort_contains(p);
        let t = sort_seq(p);
        lemma_insert_split(t, s.last());
        let k = insert_point(t, s.last(), 0);
        assert forall|i: int| 0 <= i < sort_seq(s).len() implies s.contains(#[trigger] sort_seq(s)[i]) by {
            let v = sort_seq(s)[i];
            if i < k {
                assert(v == t[i]);
                assert(p.contains(v));
                let w = choose|w: int| 0 <= w < p.len() && p[w] == v;
                assert(s[w] == v);
            } else if i == k {
                assert(v == s.last());
                assert(s[s.len() - 1] == v);
            } else {
                assert(v == t[i - 1]);
                assert(p.contains(v));
                let w = choose|w: int| 0 <= w < p.len() && p[w] == v;
                assert(s[w] == v);
            }
        }
    }
}

/// Whether `x` is one of the five cells.
fn holds(cells: &[u8; 5], x: u8) -> (b: bool)
    ensures
        b == cells@.contains(x),
{
    let mut i: usize = 0;
    while i < 5
        invariant
            i <= 5,
            forall|j: int| 0 <= j < i ==> cells@[j] != x,
        decreases 5 - i,
    {
        if cells[i] == x {
            assert(cells@[i as int] == x);
            return true;
        }
        i = i + 1;
    }
    false
}

/// The number of non-corner cells of `a` that `b` holds.
pub open spec fn shared_count(a: Seq<u8>, b: Seq<u8>) -> nat
    decreases a.len(),
{
    if a.len() == 0 {
        0
    } else {
        shared_count(a.drop_last(), b) + if !spec_corner_index(a.last() as int) && b.contains(a.last()) {
            1nat
        } else {
            0nat
        }
    }
}


/// Five cells from `(sr, sc)` in steps of `(dr, dc)`.
pub open spec fn line_cells(sr: int, sc: int, dr: int, dc: int) -> Seq<(int, int)> {
    Seq::new(5, |j: int| (sr + j * dr, sc + j * dc))
}

/// Whether `p` is on the board.
pub open spec fn on_board(p: (int, int)) -> bool {
    0 <= p.0 < 10 && 0 <= p.1 < 10
}

/// Flat index of `p`.
pub open spec fn cell_index(p: (int, int)) -> int {
    p.0 * 10 + p.1
}

/// Whether every cell of `line` is on the board and is a corner or holds a
/// chip of `team`.
pub open spec fn line_owned(board: Seq<Option<u8>>, team: u8, line: Seq<(int, int)>) -> bool {
    forall|j: int|
        0 <= j < line.len() ==> on_board(#[trigger] line[j]) && (spec_corner_index(cell_index(line[j]))
            || board[cell_index(line[j])] == Some(team))
}

/// The flat indices of the cells of `line`.
pub open spec fn line_indices(line: Seq<(int, int)>) -> Seq<u8> {
    Seq::new(line.len(), |j: int| cell_index(line[j]) as u8)
}

/// `locked` with the non-corner cells of `cells` marked, in order.
pub open spec fn lock_cells(locked: Seq<bool>, cells: Seq<u8>) -> Seq<bool>
    decreases cells.len(),
{
    if cells.len() == 0 {
        locked
    } else {
        let l = lock_cells(locked, cells.drop_last());
        if spec_corner_index(cells.last() as int) {
            l
        } else {
            l.update(cells.last() as int, true)
        }
    }
}

/// Whether `cand` shares more than one non-corner cell with a sequence of
/// the same team.
pub open spec fn conflicts(cand: (u8, Seq<u8>), seqs: Seq<(u8, Seq<u8>)>) -> bool {
    exists|i: int| 0 <= i < seqs.len() && (#[trigger] seqs[i]).0 == cand.0 && shared_count(cand.1, seqs[i].1) > 1
}

/// Checking one candidate line: it counts when all its cells belong to
/// `team` (corners are free), it is not already recorded, and it shares at
/// most one non-corner cell with each sequence of the same team; then its
/// non-corner cells are locked and it is recorded.
pub open spec fn check_line(
    board: Seq<Option<u8>>,
    team: u8,
    line: Seq<(int, int)>,
    locked: Seq<bool>,
    seqs: Seq<(u8, Seq<u8>)>,
) -> (bool, Seq<bool>, Seq<(u8, Seq<u8>)>) {
    if !line_owned(board, team, line) {
        (false, locked, seqs)
    } else {
        let cand = (team, sort_seq(line_indices(line)));
        if seqs.contains(cand) || conflicts(cand, seqs) {
            (false, locked, seqs)
        } else {
            (true, lock_cells(locked, cand.1), seqs.push(cand))
        }
    }
}

/// Checking `lines` in order: the number found, the locks and the records.
pub open spec fn detect_fold(
    board: Seq<Option<u8>>,
    team: u8,
    lines: Seq<Seq<(int, int)>>,
    locked: Seq<bool>,
    seqs: Seq<(u8, Seq<u8>)>,
) -> (nat, Seq<bool>, Seq<(u8, Seq<u8>)>)
    decreases lines.len(),
{
    if lines.len() == 0 {
        (0, locked, seqs)
    } else {
        let prev = detect_fold(board, team, lines.drop_last(), locked, seqs);
        let step = check_line(board, team, lines.last(), prev.1, prev.2);
        (prev.0 + if step.0 { 1nat } else { 0nat }, step.1, step.2)
    }
}

/// Direction `d` of the four line directions: across, down, down-right, down-left.
pub open spec fn direction(d: int) -> (int, int) {
    if d == 0 {
        (0, 1)
    } else if d == 1 {
        (1, 0)
    } else if d == 2 {
        (1, 1)
    } else {
        (1, -1)
    }
}

/// Number of lines in each block: rows, columns, diagonals, anti-diagonals,
/// and the lines through one cell.
pub open spec fn block_len(kind: int) -> int {
    if kind == 0 || kind == 1 {
        60
    } else if kind == 2 || kind == 3 {
        36
    } else {
        20
    }
}

/// Start and step of line `t` of block `kind` (the lines through `(pr, pc)`
/// for the last block).
pub open spec fn line_params(kind: int, pr: int, pc: int, t: int) -> (int, int, int, int) {
    if kind == 0 {
        (t / 6, t % 6, 0, 1)
    } else if kind == 1 {
        (t / 10, t % 10, 1, 0)
    } else if kind == 2 {
        (t / 6, t % 6, 1, 1)
    } else if kind == 3 {
        (t / 6, 4 + t % 6, 1, -1)
    } else {
        let d = direction(t / 5);
        let k = t % 5 - 4;
        (pr + k * d.0, pc + k * d.1, d.0, d.1)
    }
}

/// The lines of block `kind`, in scanning order.
pub open spec fn block_lines(kind: int, pr: int, pc: int) -> Seq<Seq<(int, int)>> {
    Seq::new(
        block_len(kind) as nat,
        |t: int|
            {
                let p = line_params(kind, pr, pc, t);
                line_cells(p.0, p.1, p.2, p.3)
            },
    )
}

/// The lines scanned: the four lines' worth of starts through the last
/// placed chip, or every line of the board.
pub open spec fn candidate_lines(last_placed: Option<(u8, u8)>) -> Seq<Seq<(int, int)>> {
    match last_placed {
        Some((pr, pc)) => block_lines(4, pr as int, pc as int),
        None => block_lines(0, 0, 0) + block_lines(1, 0, 0) + block_lines(2, 0, 0) + block_lines(3, 0, 0),
    }
}

/// Checking two lists of lines one after the other.
pub proof fn lemma_fold_append(
    board: Seq<Option<u8>>,
    team: u8,
    a: Seq<Seq<(int, int)>>,
    b: Seq<Seq<(int, int)>>,
    locked: Seq<bool>,
    seqs: Seq<(u8, Seq<u8>)>,
)
    ensures
        ({
            let x = detect_fold(board, team, a, locked, seqs);
            let y = detect_fold(board, team, b, x.1, x.2);
            detect_fold(board, team, a + b, locked, seqs) == (x.0 + y.0, y.1, y.2)
        }),
    decreases b.len(),
{
    if b.len() == 0 {
        assert(a + b =~= a);
    } else {
        lemma_fold_append(board, team, a, b.drop_last(), locked, seqs);
        assert((a + b).drop_last() =~= a + b.drop_last());
    }
}

/// Whether cell `idx` holds a chip of `team`.
fn holds_team(board: &[Option<u8>; 100], idx: usize, team: u8) -> (b: bool)
    requires
        idx < 100,
    ensures
        b == (board@[idx as int] == Some(team)),
{
    match board[idx] {
        Some(t) => t == team,
        None => false,
    }
}

/// Whether two records are equal as values.
fn same_record(a: &SequenceRecord, b: &SequenceRecord) -> (eq: bool)
    ensures
        eq == (rec_view(*a) == rec_view(*b)),
{
    if a.team != b.team {
        return false;
    }
    let mut i: usize = 0;
    while i < 5
        invariant
            i <= 5,
            forall|j: int| 0 <= j < i ==> a.cells@[j] == b.cells@[j],
        decreases 5 - i,
    {
        if a.cells[i] != b.cells[i] {
            assert(a.cells@[i as int] != b.cells@[i as int]);
            return false;
        }
        i = i + 1;
    }
    assert(a.cells@ =~= b.cells@);
    true
}

/// Checks the line of five cells from `(sr, sc)` in steps of `(dr, dc)` (see
/// `check_line`), recording it when it counts.
fn check_line_exec(
    board: &[Option<u8>; 100],
    team: u8,
    sr: i32,
    sc: i32,
    dr: i32,
    dc: i32,
    locked: &mut [bool; 100],
    seqs: &mut Vec<SequenceRecord>,
) -> (found: bool)
    requires
        -1000 <= sr <= 1000,
        -1000 <= sc <= 1000,
        -1 <= dr <= 1,
        -1 <= dc <= 1,
    ensures
        (found, final(locked)@, recs_view(final(seqs)@)) == check_line(
            board@,
            team,
            line_cells(sr as int, sc as int, dr as int, dc as int),
            old(locked)@,
            recs_view(old(seqs)@),
        ),
{
    let ghost line = line_cells(sr as int, sc as int, dr as int, dc as int);
    let mut cells: [u8; 5] = [0u8; 5];
    let mut j: usize = 0;
    while j < 5
        invariant
            j <= 5,
            -1000 <= sr <= 1000,
            -1000 <= sc <= 1000,
            -1 <= dr <= 1,
            -1 <= dc <= 1,
            line == line_cells(sr as int, sc as int, dr as int, dc as int),
            forall|q: int|
                0 <= q < j ==> on_board(#[trigger] line[q]) && (spec_corner_index(cell_index(line[q]))
                    || board@[cell_index(line[q])] == Some(team)) && cells@[q] == cell_index(line[q]) as u8,
        decreases 5 - j,
    {
        let step = j as i32;
        let r = if dr == 0 {
            sr
        } else if dr == 1 {
            sr + step
        } else {
            sr - step
        };
        let c = if dc == 0 {
            sc
        } else if dc == 1 {
            sc + step
        } else {
            sc - step
        };
        assert(j * dr == (if dr == 0 { 0 } else if dr == 1 { j as int } else { -j })) by (nonlinear_arith)
            requires
                -1 <= dr <= 1,
        ;
        assert(j * dc == (if dc == 0 { 0 } else if dc == 1 { j as int } else { -j })) by (nonlinear_arith)
            requires
                -1 <= dc <= 1,
        ;
        assert(line[j as int] == (r as int, c as int));
        if !(0 <= r && r < 10 && 0 <= c && c < 10) {
            assert(!on_board(line[j as int]));
            return false;
        }
        let idx = (r * 10 + c) as usize;
        cells[j] = idx as u8;
        if !is_corner_index(idx) && !holds_team(board, idx, team) {
            return false;
        }
        j = j + 1;
    }
    assert(line_owned(board@, team, line));
    assert(cells@ =~= line_indices(line));
    let cand = SequenceRecord::new(team, cells);
    let ghost s0 = recs_view(seqs@);
    let ghost cv = rec_view(cand);
    proof {
        lemma_sort_contains(line_indices(line));
    }
    let mut i: usize = 0;
    while i < seqs.len()
        invariant
            i <= seqs@.len(),
            s0 == recs_view(seqs@),
            cv == rec_view(cand),
            cand.team == team,
            cv == (team, sort_seq(line_indices(line))),
            line_owned(board@, team, line),
            line == line_cells(sr as int, sc as int, dr as int, dc as int),
            locked@ == old(locked)@,
            seqs@ == old(seqs)@,
            forall|q: int| 0 <= q < i ==> s0[q] != cv,
        decreases seqs@.len() - i,
    {
        if same_record(&seqs[i], &cand) {
            assert(s0[i as int] == cv);
            assert(s0.contains(cv));
            return false;
        }
        i = i + 1;
    }
    assert(!s0.contains(cv));
    let mut i: usize = 0;
    while i < seqs.len()
        invariant
            i <= seqs@.len(),
            s0 == recs_view(seqs@),
            cv == rec_view(cand),
            cand.team == team,
            cv == (team, sort_seq(line_indices(line))),
            line_owned(board@, team, line),
            line == line_cells(sr as int, sc as int, dr as int, dc as int),
            locked@ == old(locked)@,
            seqs@ == old(seqs)@,
            !s0.contains(cv),
            forall|q: int| 0 <= q < i ==> !((#[trigger] s0[q]).0 == cv.0 && shared_count(cv.1, s0[q].1) > 1),
        decreases seqs@.len() - i,
    {
        if seqs[i].team == team && cand.shared_non_corner_count(&seqs[i]) > 1 {
            assert(s0[i as int] == rec_view(seqs@[i as int]));
            assert(s0[i as int].0 == cv.0 && shared_count(cv.1, s0[i as int].1) > 1);
            return false;
        }
        i = i + 1;
    }
    assert(!conflicts(cv, s0));
    let ghost l0 = locked@;
    assert forall|q: int| 0 <= q < 5 implies #[trigger] cand.cells@[q] < 100 by {
        let x = cand.cells@[q];
        let li = line_indices(line);
        assert(li.contains(x));
        let w = choose|w: int| 0 <= w < li.len() && li[w] == x;
        assert(on_board(line[w]));
    }
    let mut k: usize = 0;
    while k < 5
        invariant
            k <= 5,
            locked@ == lock_cells(l0, cand.cells@.take(k as int)),
            locked@.len() == 100,
            forall|q: int| 0 <= q < 5 ==> #[trigger] cand.cells@[q] < 100,
        decreases 5 - k,
    {
        proof {
            assert(cand.cells@.take(k + 1).drop_last() =~= cand.cells@.take(k as int));
        }
        let idx = cand.cells[k] as usize;
        if !is_corner_index(idx) {
            if idx < 100 {
                locked[idx] = true;
            }
        }
        k = k + 1;
    }
    assert(cand.cells@.take(5) =~= cand.cells@);
    seqs.push(cand);
    assert(recs_view(seqs@) =~= s0.push(cv));
    true
}


/// Start and step of line `t` of block `kind` (see `line_params`).
fn line_params_exec(kind: u8, pr: i32, pc: i32, t: usize) -> (p: (i32, i32, i32, i32))
    requires
        kind <= 4,
        t < block_len(kind as int),
        0 <= pr <= 255,
        0 <= pc <= 255,
    ensures
        p.0 == line_params(kind as int, pr as int, pc as int, t as int).0,
        p.1 == line_params(kind as int, pr as int, pc as int, t as int).1,
        p.2 == line_params(kind as int, pr as int, pc as int, t as int).2,
        p.3 == line_params(kind as int, pr as int, pc as int, t as int).3,
        -1000 <= p.0 <= 1000,
        -1000 <= p.1 <= 1000,
        -1 <= p.2 <= 1,
        -1 <= p.3 <= 1,
{
    let ti = t as i32;
    if kind == 0 {
        (ti / 6, ti % 6, 0, 1)
    } else if kind == 1 {
        (ti / 10, ti % 10, 1, 0)
    } else if kind == 2 {
        (ti / 6, ti % 6, 1, 1)
    } else if kind == 3 {
        (ti / 6, 4 + ti % 6, 1, -1)
    } else {
        let d = ti / 5;
        let k = ti % 5 - 4;
        let ghost dir = direction(d as int);
        let (dr, dc): (i32, i32) = if d == 0 {
            (0, 1)
        } else if d == 1 {
            (1, 0)
        } else if d == 2 {
            (1, 1)
        } else {
            (1, -1)
        };
        let sr = if dr == 0 {
            pr
        } else {
            pr + k
        };
        let sc = if dc == 0 {
            pc
        } else if dc == 1 {
            pc + k
        } else {
            pc - k
        };
        assert(k * dr == (if dr == 0 { 0 } else { k as int })) by (nonlinear_arith)
            requires
                0 <= dr <= 1,
        ;
        assert(k * dc == (if dc == 0 { 0 } else if dc == 1 { k as int } else { -k })) by (nonlinear_arith)
            requires
                -1 <= dc <= 1,
        ;
        (sr, sc, dr, dc)
    }
}

/// Checks the lines of block `kind` in order (see `detect_fold`).
fn scan_block(
    board: &[Option<u8>; 100],
    team: u8,
    kind: u8,
    pr: i32,
    pc: i32,
    locked: &mut [bool; 100],
    seqs: &mut Vec<SequenceRecord>,
) -> (n: usize)
    requires
        kind <= 4,
        0 <= pr <= 255,
        0 <= pc <= 255,
    ensures
        (n as nat, final(locked)@, recs_view(final(seqs)@)) == detect_fold(
            board@,
            team,
            block_lines(kind as int, pr as int, pc as int),
            old(locked)@,
            recs_view(old(seqs)@),
        ),
        n <= 60,
{
    let ghost lines = block_lines(kind as int, pr as int, pc as int);
    let ghost l0 = locked@;
    let ghost s0 = recs_view(seqs@);
    let len: usize = if kind == 0 || kind == 1 {
        60
    } else if kind == 2 || kind == 3 {
        36
    } else {
        20
    };
    let mut count: usize = 0;
    let mut t: usize = 0;
    while t < len
        invariant
            kind <= 4,
            0 <= pr <= 255,
            0 <= pc <= 255,
            len == block_len(kind as int),
            lines == block_lines(kind as int, pr as int, pc as int),
            t <= len,
            count <= t,
            (count as nat, locked@, recs_view(seqs@)) == detect_fold(board@, team, lines.take(t as int), l0, s0),
        decreases len - t,
    {
        let (sr, sc, dr, dc) = line_params_exec(kind, pr, pc, t);
        proof {
            assert(lines.take(t + 1).drop_last() =~= lines.take(t as int));
            assert(lines.take(t + 1).last() == line_cells(sr as int, sc as int, dr as int, dc as int));
        }
        if check_line_exec(board, team, sr, sc, dr, dc, locked, seqs) {
            count = count + 1;
        }
        t = t + 1;
    }
    proof {
        assert(lines.take(len as int) =~= lines);
    }
    count
}

/// Looks for new sequences of `team`: along the lines through the last
/// placed chip when it is given, else along every line of the board. Each
/// line that counts (see `check_line`) is recorded in `existing_sequences`
/// and has its non-corner chips locked. Returns how many were found.
pub fn detect_sequences(
    board: &[Option<u8>; 100],
    team: u8,
    last_placed: Option<(u8, u8)>,
    locked_chips: &mut [bool; 100],
    existing_sequences: &mut Vec<SequenceRecord>,
) -> (n: usize)
    ensures
        (n as nat, final(locked_chips)@, recs_view(final(existing_sequences)@)) == detect_fold(
            board@,
            team,
            candidate_lines(last_placed),
            old(locked_chips)@,
            recs_view(old(existing_sequences)@),
        ),
{
    match last_placed {
        Some((pr, pc)) => scan_block(board, team, 4, pr as i32, pc as i32, locked_chips, existing_sequences),
        None => {
            let ghost l0 = locked_chips@;
            let ghost s0 = recs_view(existing_sequences@);
            let a = scan_block(board, team, 0, 0, 0, locked_chips, existing_sequences);
            let b = scan_block(board, team, 1, 0, 0, locked_chips, existing_sequences);
            let c = scan_block(board, team, 2, 0, 0, locked_chips, existing_sequences);
            let d = scan_block(board, team, 3, 0, 0, locked_chips, existing_sequences);
            proof {
                let b0 = block_lines(0, 0, 0);
                let b1 = block_lines(1, 0, 0);
                let b2 = block_lines(2, 0, 0);
                let b3 = block_lines(3, 0, 0);
                lemma_fold_append(board@, team, b0, b1, l0, s0);
                let x = detect_fold(board@, team, b0 + b1, l0, s0);
                lemma_fold_append(board@, team, b0 + b1, b2, l0, s0);
                lemma_fold_append(board@, team, b0 + b1 + b2, b3, l0, s0);
            }
            a + b + c + d
        },
    }
}


/// The first board cell at or after `k` that shows `c` (100 if none).
pub open spec fn find_card(c: Card, k: int) -> int
    decreases 100 - k,
{
    if k >= 100 || k < 0 {
        100
    } else if layout()[k] == BoardCell::Card(c) {
        k
    } else {
        find_card(c, k + 1)
    }
}

/// Whether `c` is shown on at least two board cells.
pub open spec fn on_board_twice(c: Card) -> bool {
    find_card(c, find_card(c, 0) + 1) < 100
}

/// The two board cells showing `card`, in board order.
pub fn card_positions(card: Card) -> (p: [(u8, u8); 2])
    requires
        on_board_twice(card),
    ensures
        p[0].0 == find_card(card, 0) / 10,
        p[0].1 == find_card(card, 0) % 10,
        p[1].0 == find_card(card, find_card(card, 0) + 1) / 10,
        p[1].1 == find_card(card, find_card(card, 0) + 1) % 10,
{
    let cells = board_layout();
    let mut found: [(u8, u8); 2] = [(0, 0); 2];
    let mut idx: usize = 0;
    while idx < 100 && cells[idx] != BoardCell::Card(card)
        invariant
            idx <= 100,
            cells@ == layout(),
            on_board_twice(card),
            find_card(card, 0) == find_card(card, idx as int),
        decreases 100 - idx,
    {
        idx = idx + 1;
    }
    let i0 = idx;
    proof {
        if idx < 100 {
            assert(find_card(card, idx as int) == idx);
        }
    }
    found[0] = index_to_coord(i0);
    idx = i0 + 1;
    while idx < 100 && cells[idx] != BoardCell::Card(card)
        invariant
            i0 < idx <= 100,
            i0 == find_card(card, 0),
            cells@ == layout(),
            on_board_twice(card),
            find_card(card, i0 + 1) == find_card(card, idx as int),
        decreases 100 - idx,
    {
        idx = idx + 1;
    }
    proof {
        if idx < 100 {
            assert(find_card(card, idx as int) == idx);
        }
    }
    found[1] = index_to_coord(idx);
    found
}

/// The 52-card deck: each suit in turn, ranks from ace down to two.
pub open spec fn standard_deck() -> Seq<Card> {
    seq![
        card('A', 'S'), card('K', 'S'), card('Q', 'S'), card('J', 'S'), card('T', 'S'), card('9', 'S'),
        card('8', 'S'), card('7', 'S'), card('6', 'S'), card('5', 'S'), card('4', 'S'), card('3', 'S'),
        card('2', 'S'), card('A', 'H'), card('K', 'H'), card('Q', 'H'), card('J', 'H'), card('T', 'H'),
        card('9', 'H'), card('8', 'H'), card('7', 'H'), card('6', 'H'), card('5', 'H'), card('4', 'H'),
        card('3', 'H'), card('2', 'H'), card('A', 'D'), card('K', 'D'), card('Q', 'D'), card('J', 'D'),
        card('T', 'D'), card('9', 'D'), card('8', 'D'), card('7', 'D'), card('6', 'D'), card('5', 'D'),
        card('4', 'D'), card('3', 'D'), card('2', 'D'), card('A', 'C'), card('K', 'C'), card('Q', 'C'),
        card('J', 'C'), card('T', 'C'), card('9', 'C'), card('8', 'C'), card('7', 'C'), card('6', 'C'),
        card('5', 'C'), card('4', 'C'), card('3', 'C'), card('2', 'C'),
    ]
}

/// cardpack's `Standard52::DECK`, each card as its rank and suit index
/// characters. As that constant is written in cardpack's source, the deck
/// lists spades, hearts, diamonds, clubs, each from ace down to two.
#[verifier::external_body]
pub(crate) fn standard_deck_pairs() -> (v: Vec<(char, char)>)
    ensures
        v@.len() == 52,
        forall|i: int| 0 <= i < 52 ==> #[trigger] v@[i] == (standard_deck()[i].rank, standard_deck()[i].suit),
{
    cardpack::prelude::Standard52::DECK.iter().map(|c| (c.rank.index, c.suit.index)).collect()
}

proof fn lemma_deck_len()
    ensures
        standard_deck().len() == 52,
{
}

/// The double deck of Sequence: two 52-card decks, one after the other.
pub fn create_double_deck() -> (deck: Vec<Card>)
    ensures
        deck@ == standard_deck() + standard_deck(),
{
    let pairs = standard_deck_pairs();
    let mut deck: Vec<Card> = Vec::new();
    let mut round: usize = 0;
    while round < 2
        invariant
            round <= 2,
            pairs@.len() == 52,
            forall|i: int| 0 <= i < 52 ==> #[trigger] pairs@[i] == (standard_deck()[i].rank, standard_deck()[i].suit),
            deck@ == (if round == 0 { Seq::empty() } else if round == 1 { standard_deck() } else {
                standard_deck() + standard_deck()
            }),
        decreases 2 - round,
    {
        let ghost start = deck@;
        let mut i: usize = 0;
        while i < 52
            invariant
                i <= 52,
                pairs@.len() == 52,
                forall|j: int| 0 <= j < 52 ==> #[trigger] pairs@[j] == (standard_deck()[j].rank, standard_deck()[j].suit),
                deck@ == start + standard_deck().take(i as int),
            decreases 52 - i,
        {
            let (rank, suit) = pairs[i];
            deck.push(Card { rank, suit });
            proof {
                lemma_deck_len();
                assert(standard_deck()[i as int] == Card { rank, suit });
                assert(start + standard_deck().take(i + 1) =~= (start + standard_deck().take(i as int)).push(
                    Card { rank, suit },
                ));
            }
            i = i + 1;
        }
        proof {
            lemma_deck_len();
            assert(standard_deck().take(52) =~= standard_deck());
            assert(start + standard_deck() =~= (if round == 0 { standard_deck() } else {
                standard_deck() + standard_deck()
            }));
        }
        round = round + 1;
    }
    deck
}


/// The recorded sequences are all different, and two of the same team
/// share at most one non-corner cell (the later one's cells counted in the
/// earlier one).
pub open spec fn records_ok(seqs: Seq<(u8, Seq<u8>)>) -> bool {
    forall|i: int, j: int|
        0 <= i < j < seqs.len() ==> #[trigger] seqs[i] != #[trigger] seqs[j] && (seqs[j].0 == seqs[i].0
            ==> shared_count(seqs[j].1, seqs[i].1) <= 1)
}

/// `locked` with the cells of each record of `recs` locked in turn.
pub open spec fn lock_records(locked: Seq<bool>, recs: Seq<(u8, Seq<u8>)>) -> Seq<bool>
    decreases recs.len(),
{
    if recs.len() == 0 {
        locked
    } else {
        lock_cells(lock_records(locked, recs.drop_last()), recs.last().1)
    }
}

/// Every sequence that detection records is one of the scanned lines that
/// `team` owns, its cells sorted; the earlier records stay in front; each new
/// record differs from every record before it and shares at most one
/// non-corner cell with each earlier one of its team; and the locks it
/// leaves are exactly the earlier locks with the cells of the new records
/// locked.
pub proof fn law_detection_records_lines(
    board: Seq<Option<u8>>,
    team: u8,
    lines: Seq<Seq<(int, int)>>,
    locked: Seq<bool>,
    seqs: Seq<(u8, Seq<u8>)>,
)
    ensures
        ({
            let out = detect_fold(board, team, lines, locked, seqs);
            &&& out.2.len() == seqs.len() + out.0
            &&& out.2.take(seqs.len() as int) == seqs
            &&& forall|k: int|
                seqs.len() <= k < out.2.len() ==> exists|j: int|
                    0 <= j < lines.len() && line_owned(board, team, #[trigger] lines[j]) && #[trigger] out.2[k] == (
                    team,
                    sort_seq(line_indices(lines[j])),
                )
            &&& out.1 == lock_records(locked, out.2.skip(seqs.len() as int))
            &&& forall|i: int, k: int|
                0 <= i < k < out.2.len() && seqs.len() <= k ==> #[trigger] out.2[i] != #[trigger] out.2[k] && (
                out.2[i].0 == out.2[k].0 ==> shared_count(out.2[k].1, out.2[i].1) <= 1)
        }),
    decreases lines.len(),
{
    if lines.len() == 0 {
        assert(seqs.take(seqs.len() as int) =~= seqs);
        assert(seqs.skip(seqs.len() as int) =~= Seq::<(u8, Seq<u8>)>::empty());
    } else {
        let init = lines.drop_last();
        law_detection_records_lines(board, team, init, locked, seqs);
        let prev = detect_fold(board, team, init, locked, seqs);
        let step = check_line(board, team, lines.last(), prev.1, prev.2);
        let out = detect_fold(board, team, lines, locked, seqs);
        assert(out == (prev.0 + if step.0 { 1nat } else { 0nat }, step.1, step.2));
        assert forall|k: int| seqs.len() <= k < prev.2.len() implies exists|j: int|
            0 <= j < lines.len() && line_owned(board, team, #[trigger] lines[j]) && #[trigger] prev.2[k] == (
            team,
            sort_seq(line_indices(lines[j])),
        ) by {
            let j = choose|j: int|
                0 <= j < init.len() && line_owned(board, team, #[trigger] init[j]) && #[trigger] prev.2[k] == (
                team,
                sort_seq(line_indices(init[j])),
            );
            assert(init[j] == lines[j]);
        }
        if step.0 {
            let cand = (team, sort_seq(line_indices(lines.last())));
            assert(step.2 == prev.2.push(cand));
            assert(step.2.take(seqs.len() as int) =~= prev.2.take(seqs.len() as int));
            assert forall|k: int| seqs.len() <= k < step.2.len() implies exists|j: int|
                0 <= j < lines.len() && line_owned(board, team, #[trigger] lines[j]) && #[trigger] step.2[k] == (
                team,
                sort_seq(line_indices(lines[j])),
            ) by {
                if k < prev.2.len() {
                    assert(step.2[k] == prev.2[k]);
                } else {
                    assert(step.2[k] == cand);
                    assert(line_owned(board, team, lines[lines.len() - 1]));
                }
            }
            let news = step.2.skip(seqs.len() as int);
            assert(news.drop_last() =~= prev.2.skip(seqs.len() as int));
            assert(news.last() == cand);
            let ps = prev.2;
            assert forall|i: int, k: int|
                0 <= i < k < step.2.len() && seqs.len() <= k implies #[trigger] step.2[i] != #[trigger] step.2[k] && (
                step.2[i].0 == step.2[k].0 ==> shared_count(step.2[k].1, step.2[i].1) <= 1) by {
                if k == ps.len() {
                    assert(step.2[k] == cand);
                    assert(step.2[i] == ps[i]);
                    if ps[i] == cand {
                        assert(ps.contains(cand));
                    }
                    if ps[i].0 == cand.0 && shared_count(cand.1, ps[i].1) > 1 {
                        assert(conflicts(cand, ps));
                    }
                } else {
                    assert(step.2[i] == ps[i] && step.2[k] == ps[k]);
                }
            }
        }
    }
}

/// Each line scanned after a chip is placed at `(pr, pc)` runs through that
/// cell.
pub proof fn law_local_lines_through(pr: int, pc: int, t: int)
    requires
        0 <= t < 20,
    ensures
        block_lines(4, pr, pc)[t].contains((pr, pc)),
{
    let line = block_lines(4, pr, pc)[t];
    let d = direction(t / 5);
    let k = t % 5 - 4;
    assert(line == line_cells(pr + k * d.0, pc + k * d.1, d.0, d.1));
    let j = -k;
    assert(0 <= j < 5);
    assert(k * d.0 + j * d.0 == 0 && k * d.1 + j * d.1 == 0) by (nonlinear_arith)
        requires
            j == -k,
    ;
    assert(line[j] == (pr, pc));
}

/// After a chip is placed at `(pr, pc)`, every sequence that detection
/// records holds that cell.
pub proof fn law_local_records_hold_chip(
    board: Seq<Option<u8>>,
    team: u8,
    pr: u8,
    pc: u8,
    locked: Seq<bool>,
    seqs: Seq<(u8, Seq<u8>)>,
)
    requires
        pr < 10,
        pc < 10,
    ensures
        ({
            let out = detect_fold(board, team, candidate_lines(Some((pr, pc))), locked, seqs);
            forall|k: int| seqs.len() <= k < out.2.len() ==> (#[trigger] out.2[k]).1.contains((pr * 10 + pc) as u8)
        }),
{
    let lines = candidate_lines(Some((pr, pc)));
    let out = detect_fold(board, team, lines, locked, seqs);
    law_detection_records_lines(board, team, lines, locked, seqs);
    assert forall|k: int| seqs.len() <= k < out.2.len() implies (#[trigger] out.2[k]).1.contains(
        (pr * 10 + pc) as u8,
    ) by {
        let j = choose|j: int|
            0 <= j < lines.len() && line_owned(board, team, #[trigger] lines[j]) && #[trigger] out.2[k] == (
            team,
            sort_seq(line_indices(lines[j])),
        );
        law_local_lines_through(pr as int, pc as int, j);
        let line = lines[j];
        let w = choose|w: int| 0 <= w < line.len() && line[w] == (pr as int, pc as int);
        let li = line_indices(line);
        let x = (pr * 10 + pc) as u8;
        assert(li[w] == x);
        li.to_multiset_ensures();
        assert(li.contains(x));
        law_sort_orders(li);
        sort_seq(li).to_multiset_ensures();
        assert(sort_seq(li).to_multiset().count(x) > 0);
    }
}

/// Locking cells never unlocks one.
proof fn lemma_lock_monotone(locked: Seq<bool>, cells: Seq<u8>)
    requires
        forall|k: int| 0 <= k < cells.len() ==> (#[trigger] cells[k]) < locked.len(),
    ensures
        lock_cells(locked, cells).len() == locked.len(),
        forall|i: int| 0 <= i < locked.len() && locked[i] ==> #[trigger] lock_cells(locked, cells)[i],
    decreases cells.len(),
{
    if cells.len() > 0 {
        lemma_lock_monotone(locked, cells.drop_last());
    }
}

/// Detection keeps the rules of the recorded sequences (see `records_ok`),
/// only adds records, one per sequence it reports, all of `team`, and never
/// unlocks a chip.
pub proof fn law_detection_keeps_records(
    board: Seq<Option<u8>>,
    team: u8,
    lines: Seq<Seq<(int, int)>>,
    locked: Seq<bool>,
    seqs: Seq<(u8, Seq<u8>)>,
)
    requires
        records_ok(seqs),
        locked.len() == 100,
    ensures
        ({
            let out = detect_fold(board, team, lines, locked, seqs);
            &&& records_ok(out.2)
            &&& out.2.len() == seqs.len() + out.0
            &&& out.2.take(seqs.len() as int) == seqs
            &&& forall|i: int| seqs.len() <= i < out.2.len() ==> (#[trigger] out.2[i]).0 == team
            &&& out.1.len() == locked.len()
            &&& forall|i: int| 0 <= i < locked.len() && locked[i] ==> #[trigger] out.1[i]
        }),
    decreases lines.len(),
{
    if lines.len() > 0 {
        law_detection_keeps_records(board, team, lines.drop_last(), locked, seqs);
        let prev = detect_fold(board, team, lines.drop_last(), locked, seqs);
        let step = check_line(board, team, lines.last(), prev.1, prev.2);
        if step.0 {
            let cand = (team, sort_seq(line_indices(lines.last())));
            let ps = prev.2;
            assert(step.2 == ps.push(cand));
            lemma_sort_contains(line_indices(lines.last()));
            assert forall|k: int| 0 <= k < cand.1.len() implies (#[trigger] cand.1[k]) < prev.1.len() by {
                let x = cand.1[k];
                let li = line_indices(lines.last());
                assert(li.contains(x));
                let w = choose|w: int| 0 <= w < li.len() && li[w] == x;
                assert(on_board(lines.last()[w]));
            }
            lemma_lock_monotone(prev.1, cand.1);
            assert forall|i: int, j: int| 0 <= i < j < step.2.len() implies #[trigger] step.2[i] != #[trigger] step.2[j]
                && (step.2[j].0 == step.2[i].0 ==> shared_count(step.2[j].1, step.2[i].1) <= 1) by {
                if j == ps.len() {
                    assert(step.2[j] == cand);
                    assert(step.2[i] == ps[i]);
                    if ps[i] == cand {
                        assert(ps.contains(cand));
                    }
                    if ps[i].0 == cand.0 && shared_count(cand.1, ps[i].1) > 1 {
                        assert(conflicts(cand, ps));
                    }
                } else {
                    assert(step.2[i] == ps[i] && step.2[j] == ps[j]);
                }
            }
            assert(step.2.take(seqs.len() as int) =~= seqs) by {
                assert(ps.take(seqs.len() as int) == seqs);
            }
        }
    } else {
        assert(seqs.take(seqs.len() as int) =~= seqs);
    }
}


/// Every value before the insertion point is below `x`.
proof fn lemma_before_insert_point(s: Seq<u8>, x: u8, k: int)
    requires
        0 <= k <= s.len(),
        forall|i: int| 0 <= i < k ==> s[i] < x,
    ensures
        forall|i: int| 0 <= i < insert_point(s, x, k) ==> s[i] < x,
        k <= insert_point(s, x, k) <= s.len(),
        insert_point(s, x, k) < s.len() ==> x <= s[insert_point(s, x, k)],
    decreases s.len() - k,
{
    if k < s.len() && !(x <= s[k]) {
        lemma_before_insert_point(s, x, k + 1);
    }
}

/// Inserting into an ascending sequence keeps it ascending and adds `x`.
proof fn lemma_insert_sorted(s: Seq<u8>, x: u8)
    requires
        ascending(s),
    ensures
        ascending(insert_sorted(s, x)),
        insert_sorted(s, x).to_multiset() == s.to_multiset().insert(x),
{
    lemma_insert_split(s, x);
    lemma_before_insert_point(s, x, 0);
    let k = insert_point(s, x, 0);
    let t = insert_sorted(s, x);
    assert(t =~= s.insert(k, x));
    vstd::seq_lib::to_multiset_insert(s, k, x);
    assert forall|i: int, j: int| 0 <= i <= j < t.len() implies t[i] <= t[j] by {
        if j < k {
        } else if i > k {
            assert(t[i] == s[i - 1] && t[j] == s[j - 1]);
        } else if i == k && j > k {
            assert(t[j] == s[j - 1]);
            assert(x <= s[k]);
        } else if i < k && j == k {
        } else if i < k && j > k {
            assert(t[j] == s[j - 1]);
            assert(s[i] <= s[j - 1]);
        }
    }
}

/// Sorting gives an ascending sequence of the same values: the cells of a
/// sequence record come out in ascending order, none lost or added.
pub proof fn law_sort_orders(s: Seq<u8>)
    ensures
        ascending(sort_seq(s)),
        sort_seq(s).to_multiset() == s.to_multiset(),
    decreases s.len(),
{
    if s.len() == 0 {
        assert(s =~= Seq::<u8>::empty());
        assert(sort_seq(s) =~= Seq::<u8>::empty());
        broadcast use vstd::seq_lib::to_multiset_len;
        assert(sort_seq(s).to_multiset().len() == 0);
        assert(s.to_multiset().len() == 0);
        assert(sort_seq(s).to_multiset() =~= s.to_multiset());
    } else {
        law_sort_orders(s.drop_last());
        lemma_insert_sorted(sort_seq(s.drop_last()), s.last());
        assert(s =~= s.drop_last().push(s.last()));
        vstd::seq_lib::to_multiset_build(s.drop_last(), s.last());
    }
}

} // verus!
