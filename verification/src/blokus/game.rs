//! Blokus board state, actions, legal move generation and scoring.
use vstd::prelude::*;
use crate::text::{decimal, decimal_chars, extend_chars, extend_str, string_of};
use crate::blokus::pieces::{
    NUM_PIECES, PieceRegistry, PolyominoShape, TOTAL_SQUARES_PER_PLAYER, orientations_for,
    orientations_match, piece_orientations, piece_size, registry, spec_piece_size,
    lemma_orientation_count,
};

verus! {

/// Board cell holding no piece.
pub const EMPTY: u8 = 255;

/// Inventory mask with all 21 pieces still unplaced.
pub const ALL_PIECES_MASK: u32 = 0x1F_FFFF;

/// Player identity, for up to 4 players.
#[derive(Debug, Clone, Copy, PartialEq, Eq, PartialOrd, Ord, Hash)]
pub enum Player {
    /// Player 0.
    Blue,
    /// Player 1.
    Yellow,
    /// Player 2.
    Red,
    /// Player 3.
    Green,
}

impl Player {
    pub open spec fn spec_index(self) -> int {
        match self {
            Player::Blue => 0,
            Player::Yellow => 1,
            Player::Red => 2,
            Player::Green => 3,
        }
    }

    /// The player with index `index` (0 to 3).
    pub fn from_index(index: usize) -> (p: Self)
        requires
            index < 4,
        ensures
            p.spec_index() == index,
    {
        match index {
            0 => Player::Blue,
            1 => Player::Yellow,
            2 => Player::Red,
            _ => Player::Green,
        }
    }

    /// The zero-based index of this player.
    pub fn index(self) -> (i: usize)
        ensures
            i == self.spec_index(),
    {
        match self {
            Player::Blue => 0,
            Player::Yellow => 1,
            Player::Red => 2,
            Player::Green => 3,
        }
    }

    /// The display name of this player.
    pub fn name(self) -> (s: &'static str)
        ensures
            self.spec_index() == 0 ==> s@ == "Blue"@,
            self.spec_index() == 1 ==> s@ == "Yellow"@,
            self.spec_index() == 2 ==> s@ == "Red"@,
            self.spec_index() == 3 ==> s@ == "Green"@,
    {
        match self {
            Player::Blue => "Blue",
            Player::Yellow => "Yellow",
            Player::Red => "Red",
            Player::Green => "Green",
        }
    }
}

/// A Blokus move: placing a piece, or passing.
#[derive(Debug, Clone, Copy, PartialEq, Eq, PartialOrd, Ord, Hash)]
pub enum BlokusAction {
    /// Place orientation `orientation` of piece `piece_id` with its bounding
    /// box anchored at `(row, col)`.
    Place { piece_id: u8, orientation: u8, row: u8, col: u8 },
    /// Pass the turn.
    Pass,
}

/// The text of an action: `Place piece 3 (ori 1) at (4, 5)` or `Pass`.
pub open spec fn action_text(a: BlokusAction) -> Seq<char> {
    match a {
        BlokusAction::Place { piece_id, orientation, row, col } => "Place piece "@ + decimal(piece_id as nat)
            + " (ori "@ + decimal(orientation as nat) + ") at ("@ + decimal(row as nat) + ", "@ + decimal(
            col as nat,
        ) + ")"@,
        BlokusAction::Pass => "Pass"@,
    }
}

/// The debugging text of an action: `Place(id=3, ori=1, r=4, c=5)` or `Pass`.
pub open spec fn action_debug_text(a: BlokusAction) -> Seq<char> {
    match a {
        BlokusAction::Place { piece_id, orientation, row, col } => "Place(id="@ + decimal(piece_id as nat)
            + ", ori="@ + decimal(orientation as nat) + ", r="@ + decimal(row as nat) + ", c="@ + decimal(
            col as nat,
        ) + ")"@,
        BlokusAction::Pass => "Pass"@,
    }
}

impl BlokusAction {
    /// The action as text, e.g. `Place piece 3 (ori 1) at (4, 5)`.
    pub fn to_string(&self) -> (s: String)
        ensures
            s@ == action_text(*self),
    {
        let mut out: Vec<char> = Vec::new();
        match *self {
            BlokusAction::Place { piece_id, orientation, row, col } => {
                extend_str(&mut out, "Place piece ");
                extend_chars(&mut out, decimal_chars(piece_id as usize).as_slice());
                extend_str(&mut out, " (ori ");
                extend_chars(&mut out, decimal_chars(orientation as usize).as_slice());
                extend_str(&mut out, ") at (");
                extend_chars(&mut out, decimal_chars(row as usize).as_slice());
                extend_str(&mut out, ", ");
                extend_chars(&mut out, decimal_chars(col as usize).as_slice());
                extend_str(&mut out, ")");
            },
            BlokusAction::Pass => extend_str(&mut out, "Pass"),
        }
        string_of(out.as_slice())
    }

    /// The action as debugging text, e.g. `Place(id=3, ori=1, r=4, c=5)`.
    pub fn debug_string(&self) -> (s: String)
        ensures
            s@ == action_debug_text(*self),
    {
        let mut out: Vec<char> = Vec::new();
        match *self {
            BlokusAction::Place { piece_id, orientation, row, col } => {
                extend_str(&mut out, "Place(id=");
                extend_chars(&mut out, decimal_chars(piece_id as usize).as_slice());
                extend_str(&mut out, ", ori=");
                extend_chars(&mut out, decimal_chars(orientation as usize).as_slice());
                extend_str(&mut out, ", r=");
                extend_chars(&mut out, decimal_chars(row as usize).as_slice());
                extend_str(&mut out, ", c=");
                extend_chars(&mut out, decimal_chars(col as usize).as_slice());
                extend_str(&mut out, ")");
            },
            BlokusAction::Pass => extend_str(&mut out, "Pass"),
        }
        string_of(out.as_slice())
    }
}

/// Game state on a `B x B` board with `P` players.
#[derive(Clone, PartialEq, Eq)]
pub struct BlokusState<const B: usize, const P: usize> {
    /// Board cells: `EMPTY` or the index of the player owning the square.
    pub board: [[u8; B]; B],
    /// Per player, bit `i` is set while piece `i` is unplaced.
    pub remaining_pieces: [u32; P],
    /// Last piece placed by each player.
    pub last_piece: [Option<u8>; P],
    /// Whether each player has passed (or placed every piece).
    pub passed: [bool; P],
    /// Player to move.
    pub current_player: u8,
    /// Number of consecutive passes.
    pub consecutive_passes: u8,
    /// Number of pieces placed so far.
    pub move_count: u16,
}

impl<const B: usize, const P: usize> Default for BlokusState<B, P> {
    /// The start of a game, as `new` gives it.
    fn default() -> (s: Self)
        ensures
            P > 0 ==> s.wf(),
            forall|r: int, c: int| 0 <= r < B && 0 <= c < B ==> s.cell(r, c) == EMPTY,
            forall|p: int| 0 <= p < P ==> s.remaining_pieces@[p] == ALL_PIECES_MASK,
            forall|p: int| 0 <= p < P ==> s.last_piece@[p] == None::<u8>,
            forall|p: int| 0 <= p < P ==> !s.passed@[p],
            s.current_player == 0,
            s.consecutive_passes == 0,
            s.move_count == 0,
    {
        BlokusState {
            board: [[EMPTY; B]; B],
            remaining_pieces: [ALL_PIECES_MASK; P],
            last_piece: [None; P],
            passed: [false; P],
            current_player: 0,
            consecutive_passes: 0,
            move_count: 0,
        }
    }
}

/// The four-player game on a 20 x 20 board.
pub type BlokusClassicState = BlokusState<20, 4>;

/// The two-player game on a 14 x 14 board.
pub type BlokusDuoState = BlokusState<14, 2>;

/// Piece `id` is still in the inventory `mask`.
pub open spec fn piece_in_mask(mask: u32, id: u8) -> bool {
    id < 21 && mask & (1u32 << id) != 0
}

/// Total size of the pieces among `0..k` still in `mask`.
pub open spec fn unplaced_sum(mask: u32, k: nat) -> int
    decreases k,
{
    if k == 0 {
        0
    } else {
        unplaced_sum(mask, (k - 1) as nat) + if mask & (1u32 << ((k - 1) as u32)) != 0 {
            spec_piece_size(k - 1)
        } else {
            0
        }
    }
}

proof fn lemma_unplaced_sum_bound(mask: u32, k: nat)
    requires
        k <= 21,
    ensures
        0 <= unplaced_sum(mask, k) <= unplaced_sum(ALL_PIECES_MASK, k),
    decreases k,
{
    if k > 0 {
        lemma_unplaced_sum_bound(mask, (k - 1) as nat);
        let b = (k - 1) as u32;
        assert(b < 21 ==> ALL_PIECES_MASK & (1u32 << b) != 0) by (bit_vector);
    }
}

/// The full inventory holds 89 squares.
pub proof fn lemma_full_inventory()
    ensures
        unplaced_sum(ALL_PIECES_MASK, 21) == TOTAL_SQUARES_PER_PLAYER,
{
    assert forall|b: u32| b < 21 implies ALL_PIECES_MASK & (1u32 << b) != 0 by {
        assert(b < 21 ==> ALL_PIECES_MASK & (1u32 << b) != 0) by (bit_vector);
    }
    reveal_with_fuel(unplaced_sum, 22);
}

/// An empty inventory holds no squares.
pub proof fn lemma_empty_inventory(k: nat)
    ensures
        unplaced_sum(0, k) == 0,
    decreases k,
{
    if k > 0 {
        lemma_empty_inventory((k - 1) as nat);
        let b = (k - 1) as u32;
        assert(0u32 & (1u32 << b) == 0) by (bit_vector);
    }
}

/// Taking piece `id` out of the inventory removes exactly its squares from
/// the unplaced total.
pub proof fn law_placing_removes_piece_squares(mask: u32, id: u8)
    requires
        piece_in_mask(mask, id),
    ensures
        unplaced_sum(mask & !(1u32 << id), 21) == unplaced_sum(mask, 21) - spec_piece_size(id as int),
{
    lemma_remove_bit(mask, id, 21);
}

proof fn lemma_remove_bit(mask: u32, id: u8, k: nat)
    requires
        piece_in_mask(mask, id),
        k <= 21,
    ensures
        unplaced_sum(mask & !(1u32 << id), k) == unplaced_sum(mask, k) - if (id as nat) < k {
            spec_piece_size(id as int)
        } else {
            0
        },
    decreases k,
{
    if k > 0 {
        lemma_remove_bit(mask, id, (k - 1) as nat);
        let b = (k - 1) as u32;
        let m2 = mask & !(1u32 << id);
        assert(b < 32 && id < 32 && b != id as u32 ==> ((m2 & (1u32 << b) != 0) == (mask & (1u32 << b) != 0)))
            by (bit_vector)
            requires
                m2 == mask & !(1u32 << id),
        ;
        assert(b < 32 && b == id as u32 ==> m2 & (1u32 << b) == 0) by (bit_vector)
            requires
                m2 == mask & !(1u32 << id),
        ;
    }
}

/// Score from an unplaced square count and the last placed piece.
pub open spec fn score_of(unplaced: int, last: Option<u8>) -> int {
    if unplaced == 0 {
        if last == Some(0u8) {
            20
        } else {
            15
        }
    } else {
        -unplaced
    }
}

impl<const B: usize, const P: usize> BlokusState<B, P> {
    /// Board and player counts that the engine supports.
    pub open spec fn dims_ok() -> bool {
        5 <= B <= 30 && 1 <= P <= 4
    }

    /// The player to move is a seat of the game.
    pub open spec fn wf(&self) -> bool {
        self.current_player < P
    }

    pub open spec fn cell(&self, r: int, c: int) -> u8 {
        self.board@[r]@[c]
    }

    /// `(r, c)` is on the board and holds a square of player `p`.
    pub open spec fn owns(&self, r: int, c: int, p: u8) -> bool {
        0 <= r < B && 0 <= c < B && self.cell(r, c) == p
    }

    /// `(r, c)` shares an edge with a square of `p`.
    pub open spec fn edge_touch(&self, r: int, c: int, p: u8) -> bool {
        self.owns(r - 1, c, p) || self.owns(r + 1, c, p) || self.owns(r, c - 1, p) || self.owns(
            r,
            c + 1,
            p,
        )
    }

    /// `(r, c)` shares a vertex with a square of `p`.
    pub open spec fn corner_touch(&self, r: int, c: int, p: u8) -> bool {
        self.owns(r - 1, c - 1, p) || self.owns(r - 1, c + 1, p) || self.owns(r + 1, c - 1, p)
            || self.owns(r + 1, c + 1, p)
    }

    /// `(r, c)` is an empty cell touching `p` only at a corner.
    pub open spec fn free_corner(&self, r: int, c: int, p: u8) -> bool {
        &&& 0 <= r < B
        &&& 0 <= c < B
        &&& self.cell(r, c) == EMPTY
        &&& !self.edge_touch(r, c, p)
        &&& self.corner_touch(r, c, p)
    }

    /// The free corners of `p` among the first `k` cells, in row-major order.
    pub open spec fn corners_upto(&self, p: u8, k: int) -> Seq<(u8, u8)>
        decreases k,
    {
        if k <= 0 || B == 0 {
            Seq::empty()
        } else {
            let rest = self.corners_upto(p, k - 1);
            let r = (k - 1) / (B as int);
            let c = (k - 1) % (B as int);
            if self.free_corner(r, c, p) {
                rest.push((r as u8, c as u8))
            } else {
                rest
            }
        }
    }

    pub open spec fn spec_start(player: int) -> (int, int) {
        if B == 14 && P == 2 {
            if player == 0 {
                (4, 4)
            } else if player == 1 {
                (9, 9)
            } else {
                (0, 0)
            }
        } else {
            if player == 0 {
                (0, 0)
            } else if player == 1 {
                (0, B - 1)
            } else if player == 2 {
                (B - 1, B - 1)
            } else if player == 3 {
                (B - 1, 0)
            } else {
                (0, 0)
            }
        }
    }

    pub open spec fn spec_first(&self, player: int) -> bool {
        self.remaining_pieces@[player] == ALL_PIECES_MASK
    }

    pub open spec fn spec_unplaced(&self, player: int) -> int {
        unplaced_sum(self.remaining_pieces@[player], 21)
    }

    pub open spec fn spec_all_passed(&self) -> bool {
        forall|p: int| 0 <= p < P ==> #[trigger] self.passed@[p]
    }

    pub open spec fn spec_terminal(&self) -> bool {
        self.spec_all_passed() || self.consecutive_passes >= P
    }

    /// Square `i` of `cells` placed with anchor `(row, col)`.
    pub open spec fn at(cells: Seq<(u8, u8)>, i: int, row: int, col: int) -> (int, int) {
        (row + cells[i].0, col + cells[i].1)
    }

    /// Whether placing orientation `ori` of piece `piece` at `(row, col)` is a
    /// legal move of `player`.
    pub open spec fn placement_ok(&self, player: int, piece: u8, ori: u8, row: u8, col: u8) -> bool {
        let p = player as u8;
        let cells = piece_orientations(piece as int)[ori as int];
        &&& piece_in_mask(self.remaining_pieces@[player], piece)
        &&& ori < piece_orientations(piece as int).len()
        &&& forall|i: int|
            0 <= i < cells.len() ==> (#[trigger] Self::at(cells, i, row as int, col as int)).0 < B
                && Self::at(cells, i, row as int, col as int).1 < B
        &&& forall|i: int|
            0 <= i < cells.len() ==> self.cell(
                #[trigger] Self::at(cells, i, row as int, col as int).0,
                Self::at(cells, i, row as int, col as int).1,
            ) == EMPTY
        &&& if self.spec_first(player) {
            exists|i: int|
                0 <= i < cells.len() && #[trigger] Self::at(cells, i, row as int, col as int)
                    == Self::spec_start(player)
        } else {
            &&& forall|i: int|
                0 <= i < cells.len() ==> !self.edge_touch(
                    #[trigger] Self::at(cells, i, row as int, col as int).0,
                    Self::at(cells, i, row as int, col as int).1,
                    p,
                )
            &&& exists|i: int|
                0 <= i < cells.len() && self.corner_touch(
                    #[trigger] Self::at(cells, i, row as int, col as int).0,
                    Self::at(cells, i, row as int, col as int).1,
                    p,
                )
        }
    }

    /// Creates the initial state: empty board, full inventories, player 0 to move.
    pub fn new() -> (s: Self)
        requires
            Self::dims_ok(),
        ensures
            s.wf(),
            forall|r: int, c: int| 0 <= r < B && 0 <= c < B ==> s.cell(r, c) == EMPTY,
            forall|p: int| 0 <= p < P ==> s.remaining_pieces@[p] == ALL_PIECES_MASK,
            forall|p: int| 0 <= p < P ==> s.last_piece@[p] == None::<u8>,
            forall|p: int| 0 <= p < P ==> !s.passed@[p],
            s.current_player == 0,
            s.consecutive_passes == 0,
            s.move_count == 0,
    {
        BlokusState {
            board: [[EMPTY; B]; B],
            remaining_pieces: [ALL_PIECES_MASK; P],
            last_piece: [None; P],
            passed: [false; P],
            current_player: 0,
            consecutive_passes: 0,
            move_count: 0,
        }
    }

    /// The state as debugging text, e.g.
    /// `BlokusState(B=14, P=2, turn=0, moves=0, terminal=false)`.
    pub fn debug_string(&self) -> (t: String)
        requires
            P <= 255,
        ensures
            t@ == "BlokusState(B="@ + decimal(B as nat) + ", P="@ + decimal(P as nat) + ", turn="@ + decimal(
                self.current_player as nat,
            ) + ", moves="@ + decimal(self.move_count as nat) + ", terminal="@ + (if self.spec_terminal() {
                "true"@
            } else {
                "false"@
            }) + ")"@,
    {
        let mut out: Vec<char> = Vec::new();
        extend_str(&mut out, "BlokusState(B=");
        extend_chars(&mut out, decimal_chars(B).as_slice());
        extend_str(&mut out, ", P=");
        extend_chars(&mut out, decimal_chars(P).as_slice());
        extend_str(&mut out, ", turn=");
        extend_chars(&mut out, decimal_chars(self.current_player as usize).as_slice());
        extend_str(&mut out, ", moves=");
        extend_chars(&mut out, decimal_chars(self.move_count as usize).as_slice());
        extend_str(&mut out, ", terminal=");
        if self.is_terminal() {
            extend_str(&mut out, "true");
        } else {
            extend_str(&mut out, "false");
        }
        extend_str(&mut out, ")");
        string_of(out.as_slice())
    }

    /// The starting square `(row, col)` of `player`.
    pub fn start_square(&self, player: usize) -> (rc: (usize, usize))
        requires
            B >= 1,
        ensures
            (rc.0 as int, rc.1 as int) == Self::spec_start(player as int),
    {
        if B == 14 && P == 2 {
            match player {
                0 => (4, 4),
                1 => (9, 9),
                _ => (0, 0),
            }
        } else {
            match player {
                0 => (0, 0),
                1 => (0, B - 1),
                2 => (B - 1, B - 1),
                3 => (B - 1, 0),
                _ => (0, 0),
            }
        }
    }

    /// Whether `player` has not placed any piece yet.
    pub fn is_first_move(&self, player: usize) -> (b: bool)
        requires
            player < P,
        ensures
            b == self.spec_first(player as int),
    {
        self.remaining_pieces[player] == ALL_PIECES_MASK
    }

    /// Whether `player` still holds piece `piece_id`.
    pub fn has_piece(&self, player: usize, piece_id: u8) -> (b: bool)
        requires
            player < P,
        ensures
            b == piece_in_mask(self.remaining_pieces@[player as int], piece_id),
    {
        if (piece_id as usize) >= NUM_PIECES {
            return false;
        }
        (self.remaining_pieces[player] & (1u32 << piece_id)) != 0
    }

    /// Number of squares in `player`'s unplaced pieces.
    pub fn unplaced_squares(&self, player: usize) -> (n: u8)
        requires
            player < P,
        ensures
            n == self.spec_unplaced(player as int),
    {
        let mut count: u8 = 0;
        let mask = self.remaining_pieces[player];
        let mut i: u8 = 0;
        while i < 21
            invariant
                i <= 21,
                mask == self.remaining_pieces@[player as int],
                count == unplaced_sum(mask, i as nat),
            decreases 21 - i,
        {
            proof {
                lemma_unplaced_sum_bound(mask, (i + 1) as nat);
                reveal_with_fuel(unplaced_sum, 2);
                lemma_all_sum_bound(i as nat);
            }
            if (mask & (1u32 << i)) != 0 {
                count += piece_size(i);
            }
            i += 1;
        }
        count
    }

    /// Tournament score of `player`: minus one per unplaced square, or +15
    /// when every piece was placed (+20 when the last one was the monomino).
    pub fn score(&self, player: usize) -> (s: i32)
        requires
            player < P,
        ensures
            s == score_of(self.spec_unplaced(player as int), self.last_piece@[player as int]),
    {
        let unplaced = self.unplaced_squares(player) as i32;
        if unplaced == 0 {
            if self.last_piece[player] == Some(0u8) {
                20
            } else {
                15
            }
        } else {
            -unplaced
        }
    }

    /// Whether the game is over: every player has passed, or `P` passes in a row.
    pub fn is_terminal(&self) -> (b: bool)
        requires
            P <= 255,
        ensures
            b == self.spec_terminal(),
    {
        let mut all = true;
        let mut i: usize = 0;
        while i < P
            invariant
                i <= P,
                all == forall|p: int| 0 <= p < i ==> #[trigger] self.passed@[p],
            decreases P - i,
        {
            if !self.passed[i] {
                all = false;
            }
            i += 1;
        }
        all || self.consecutive_passes >= (P as u8)
    }
}

/// Strict row-major order on board coordinates.
pub open spec fn rc_less(a: (u8, u8), b: (u8, u8)) -> bool {
    a.0 < b.0 || (a.0 == b.0 && a.1 < b.1)
}

impl<const B: usize, const P: usize> BlokusState<B, P> {
    fn touches_edge(&self, r: usize, c: usize, p: u8) -> (b: bool)
        requires
            r < B,
            c < B,
        ensures
            b == self.edge_touch(r as int, c as int, p),
    {
        (r > 0 && self.board[r - 1][c] == p) || (r + 1 < B && self.board[r + 1][c] == p) || (c > 0
            && self.board[r][c - 1] == p) || (c + 1 < B && self.board[r][c + 1] == p)
    }

    fn touches_corner(&self, r: usize, c: usize, p: u8) -> (b: bool)
        requires
            r < B,
            c < B,
        ensures
            b == self.corner_touch(r as int, c as int, p),
    {
        (r > 0 && c > 0 && self.board[r - 1][c - 1] == p) || (r > 0 && c + 1 < B
            && self.board[r - 1][c + 1] == p) || (r + 1 < B && c > 0 && self.board[r + 1][c - 1]
            == p) || (r + 1 < B && c + 1 < B && self.board[r + 1][c + 1] == p)
    }

    /// Whether placing orientation `orientation` of piece `piece_id` with its
    /// bounding box at `(row, col)` is legal for `player`: every square is on
    /// the board and empty; a first move covers the player's start square;
    /// later moves share no edge and at least one corner with the player's
    /// own squares.
    pub fn is_valid_placement(&self, player: usize, piece_id: u8, orientation: u8, row: u8, col: u8) -> (b: bool)
        requires
            player < P,
            P <= 256,
        ensures
            b == self.placement_ok(player as int, piece_id, orientation, row, col),
    {
        if !self.has_piece(player, piece_id) {
            return false;
        }
        let shapes = orientations_for(piece_id as usize);
        self.placement_valid_in(player, piece_id, orientation, row, col, shapes.as_slice())
    }

    fn placement_valid_in(
        &self,
        player: usize,
        piece_id: u8,
        orientation: u8,
        row: u8,
        col: u8,
        shapes: &[PolyominoShape],
    ) -> (b: bool)
        requires
            player < P,
            P <= 256,
            piece_id < 21,
            orientations_match(shapes@, piece_id as int),
        ensures
            b == self.placement_ok(player as int, piece_id, orientation, row, col),
    {
        if !self.has_piece(player, piece_id) {
            return false;
        }
        if (orientation as usize) >= shapes.len() {
            return false;
        }
        let shape = &shapes[orientation as usize];
        let ghost cells = piece_orientations(piece_id as int)[orientation as int];
        assert(shape.cells() == cells);
        let r_start = row as usize;
        let c_start = col as usize;
        if r_start + (shape.height as usize) > B || c_start + (shape.width as usize) > B {
            proof {
                if r_start + (shape.height as usize) > B {
                    let i = choose|i: int| 0 <= i < shape.num_squares && (#[trigger] shape.squares@[i]).0 + 1 == shape.height;
                    assert(Self::at(cells, i, row as int, col as int).0 >= B);
                } else {
                    let i = choose|i: int| 0 <= i < shape.num_squares && (#[trigger] shape.squares@[i]).1 + 1 == shape.width;
                    assert(Self::at(cells, i, row as int, col as int).1 >= B);
                }
            }
            return false;
        }
        let p_byte = player as u8;
        let is_first = self.is_first_move(player);
        let start_pos = self.start_square(player);
        let mut covers_start = false;
        let mut has_diagonal_contact = false;
        let squares = shape.active_squares();
        let n = squares.len();
        let mut i: usize = 0;
        while i < n
            invariant
                i <= n,
                n == cells.len(),
                cells == piece_orientations(piece_id as int)[orientation as int],
                piece_in_mask(self.remaining_pieces@[player as int], piece_id),
                orientation < piece_orientations(piece_id as int).len(),
                squares@ == cells,
                shape.wf(),
                shape.cells() == cells,
                r_start == row,
                c_start == col,
                r_start + shape.height <= B,
                c_start + shape.width <= B,
                p_byte == player as u8,
                is_first == self.spec_first(player as int),
                (start_pos.0 as int, start_pos.1 as int) == Self::spec_start(player as int),
                forall|k: int|
                    0 <= k < i ==> self.cell(
                        #[trigger] Self::at(cells, k, row as int, col as int).0,
                        Self::at(cells, k, row as int, col as int).1,
                    ) == EMPTY,
                is_first ==> (covers_start == exists|k: int|
                    0 <= k < i && #[trigger] Self::at(cells, k, row as int, col as int)
                        == Self::spec_start(player as int)),
                !is_first ==> forall|k: int|
                    0 <= k < i ==> !self.edge_touch(
                        #[trigger] Self::at(cells, k, row as int, col as int).0,
                        Self::at(cells, k, row as int, col as int).1,
                        p_byte,
                    ),
                !is_first ==> (has_diagonal_contact == exists|k: int|
                    0 <= k < i && self.corner_touch(
                        #[trigger] Self::at(cells, k, row as int, col as int).0,
                        Self::at(cells, k, row as int, col as int).1,
                        p_byte,
                    )),
            decreases n - i,
        {
            let (dr, dc) = squares[i];
            assert(shape.squares@[i as int] == cells[i as int]);
            let r = r_start + (dr as usize);
            let c = c_start + (dc as usize);
            assert((r as int, c as int) == Self::at(cells, i as int, row as int, col as int));
            if self.board[r][c] != EMPTY {
                assert(self.cell(
                    Self::at(cells, i as int, row as int, col as int).0,
                    Self::at(cells, i as int, row as int, col as int).1,
                ) != EMPTY);
                return false;
            }
            if is_first {
                if r == start_pos.0 && c == start_pos.1 {
                    covers_start = true;
                }
            } else {
                if self.touches_edge(r, c, p_byte) {
                    assert(self.edge_touch(
                        Self::at(cells, i as int, row as int, col as int).0,
                        Self::at(cells, i as int, row as int, col as int).1,
                        p_byte,
                    ));
                    return false;
                }
                if self.touches_corner(r, c, p_byte) {
                    has_diagonal_contact = true;
                    assert(self.corner_touch(
                        Self::at(cells, i as int, row as int, col as int).0,
                        Self::at(cells, i as int, row as int, col as int).1,
                        p_byte,
                    ));
                }
            }
            i += 1;
        }
        assert forall|k: int| 0 <= k < cells.len() implies (#[trigger] Self::at(cells, k, row as int, col as int)).0 < B
            && Self::at(cells, k, row as int, col as int).1 < B by {
            assert(shape.squares@[k] == cells[k]);
        }
        if is_first {
            covers_start
        } else {
            has_diagonal_contact
        }
    }

    /// Fills `out` with the free corners of `player` in row-major order: empty
    /// cells sharing no edge but at least one corner with `player`'s squares.
    pub fn find_valid_corners(&self, player: usize, out: &mut Vec<(u8, u8)>)
        requires
            B <= 255,
        ensures
            final(out)@ == self.corners_upto(player as u8, B * B),
            forall|i: int| 0 <= i < final(out)@.len() ==> (#[trigger] final(out)@[i]).0 < B && final(out)@[i].1 < B,
            forall|r: int, c: int|
                0 <= r < B && 0 <= c < B ==> (final(out)@.contains((r as u8, c as u8))
                    <==> #[trigger] self.free_corner(r, c, player as u8)),
            forall|i: int, j: int| 0 <= i < j < final(out)@.len() ==> rc_less(final(out)@[i], final(out)@[j]),
    {
        out.clear();
        let p_byte = player as u8;
        let mut r: usize = 0;
        while r < B
            invariant
                r <= B <= 255,
                p_byte == player as u8,
                forall|i: int| 0 <= i < out@.len() ==> (#[trigger] out@[i]).0 < r && out@[i].1 < B,
                forall|rr: int, cc: int|
                    0 <= rr < r && 0 <= cc < B ==> (out@.contains((rr as u8, cc as u8))
                        <==> #[trigger] self.free_corner(rr, cc, p_byte)),
                forall|i: int, j: int| 0 <= i < j < out@.len() ==> rc_less(out@[i], out@[j]),
                out@ == self.corners_upto(p_byte, r * B),
            decreases B - r,
        {
            let mut c: usize = 0;
            while c < B
                invariant
                    r < B <= 255,
                    c <= B,
                    p_byte == player as u8,
                    forall|i: int|
                        0 <= i < out@.len() ==> ((#[trigger] out@[i]).0 < r && out@[i].1 < B)
                            || (out@[i].0 == r && out@[i].1 < c),
                    forall|rr: int, cc: int|
                        0 <= rr < r && 0 <= cc < B ==> (out@.contains((rr as u8, cc as u8))
                            <==> #[trigger] self.free_corner(rr, cc, p_byte)),
                    forall|cc: int|
                        0 <= cc < c ==> (out@.contains((r as u8, cc as u8)) <==> #[trigger] self.free_corner(
                            r as int,
                            cc,
                            p_byte,
                        )),
                    forall|i: int, j: int| 0 <= i < j < out@.len() ==> rc_less(out@[i], out@[j]),
                    out@ == self.corners_upto(p_byte, r * B + c),
                decreases B - c,
            {
                let ghost before = out@;
                proof {
                    vstd::arithmetic::div_mod::lemma_fundamental_div_mod_converse(r * B + c, B as int, r as int, c as int);
                    assert(self.corners_upto(p_byte, r * B + c + 1) == if self.free_corner(r as int, c as int, p_byte) {
                        self.corners_upto(p_byte, r * B + c).push((r as u8, c as u8))
                    } else {
                        self.corners_upto(p_byte, r * B + c)
                    });
                }
                if self.board[r][c] == EMPTY && !self.touches_edge(r, c, p_byte) && self.touches_corner(r, c, p_byte) {
                    out.push((r as u8, c as u8));
                }
                proof {
                    if before.contains((r as u8, c as u8)) {
                        let k = choose|k: int| 0 <= k < before.len() && before[k] == (r as u8, c as u8);
                        assert(before[k].0 < r || (before[k].0 == r && before[k].1 < c));
                    }
                    assert forall|y: (u8, u8)| out@.contains(y) <==> (before.contains(y) || (y == (r as u8, c as u8) && self.free_corner(r as int, c as int, p_byte))) by {
                        lemma_push_contains(before, (r as u8, c as u8), y);
                    }
                }
                c += 1;
            }
            proof {
                assert(r * B + B == (r + 1) * B) by (nonlinear_arith);
            }
            r += 1;
        }
    }
}

pub proof fn lemma_push_contains<A>(s: Seq<A>, x: A, y: A)
    ensures
        s.push(x).contains(y) <==> (s.contains(y) || y == x),
{
    if s.contains(y) {
        let i = choose|i: int| 0 <= i < s.len() && s[i] == y;
        assert(s.push(x)[i] == y);
    }
    if y == x {
        assert(s.push(x)[s.len() as int] == y);
    }
    if s.push(x).contains(y) {
        let i = choose|i: int| 0 <= i < s.push(x).len() && s.push(x)[i] == y;
        if i < s.len() {
            assert(s[i] == y);
        }
    }
}

/// The anchors tried at point `pt` for the first `j` squares of `cells`: for
/// each square, the anchor that puts it on `pt`, when `pt` is not above or
/// left of the square.
pub open spec fn point_tries(cells: Seq<(u8, u8)>, pt: (u8, u8), j: int) -> Seq<(u8, u8)>
    decreases j,
{
    if j <= 0 {
        Seq::empty()
    } else {
        let rest = point_tries(cells, pt, j - 1);
        let sq = cells[j - 1];
        if pt.0 >= sq.0 && pt.1 >= sq.1 {
            rest.push(((pt.0 - sq.0) as u8, (pt.1 - sq.1) as u8))
        } else {
            rest
        }
    }
}

/// The anchors tried at the first `q` points of `pts`, point after point.
pub open spec fn anchor_tries(cells: Seq<(u8, u8)>, pts: Seq<(u8, u8)>, q: int) -> Seq<(u8, u8)>
    decreases q,
{
    if q <= 0 {
        Seq::empty()
    } else {
        anchor_tries(cells, pts, q - 1) + point_tries(cells, pts[q - 1], cells.len() as int)
    }
}

/// `x` places orientation `ori` of piece `piece`.
pub open spec fn key_is(x: BlokusAction, piece: int, ori: int) -> bool {
    match x {
        BlokusAction::Place { piece_id, orientation, .. } => piece_id == piece && orientation == ori,
        BlokusAction::Pass => false,
    }
}

/// Every action of `out` places a piece and orientation that come before
/// `(piece, ori)` in the order of generation.
pub open spec fn keys_before(out: Seq<BlokusAction>, piece: int, ori: int) -> bool {
    forall|i: int|
        0 <= i < out.len() ==> match #[trigger] out[i] {
            BlokusAction::Place { piece_id, orientation, .. } => piece_id < piece || (piece_id == piece
                && orientation < ori),
            BlokusAction::Pass => false,
        }
}

impl<const B: usize, const P: usize> BlokusState<B, P> {
    /// `player` has at least one legal placement.
    pub open spec fn spec_has_placement(&self, player: int) -> bool {
        exists|p: u8, o: u8, r: u8, c: u8| #[trigger] self.placement_ok(player, p, o, r, c)
    }

    /// `a` is a legal move of the player to move: a legal placement, or a pass
    /// when no placement is legal.
    pub open spec fn spec_legal(&self, a: BlokusAction) -> bool {
        let pl = self.current_player as int;
        match a {
            BlokusAction::Place { piece_id, orientation, row, col } => self.placement_ok(
                pl,
                piece_id,
                orientation,
                row,
                col,
            ),
            BlokusAction::Pass => !self.spec_has_placement(pl),
        }
    }

    /// Whether `apply_action` refuses `a`: the game is over, or `a` is a
    /// placement that breaks the rules. A pass is always accepted.
    pub open spec fn rejects(&self, a: BlokusAction) -> bool {
        self.spec_terminal() || match a {
            BlokusAction::Place { piece_id, orientation, row, col } => !self.placement_ok(
                self.current_player as int,
                piece_id,
                orientation,
                row,
                col,
            ),
            BlokusAction::Pass => false,
        }
    }

    /// Every action that `legal_actions` lists is accepted by `apply_action`.
    pub proof fn law_legal_actions_accepted(&self, a: BlokusAction)
        requires
            !self.spec_terminal(),
            self.spec_legal(a),
        ensures
            !self.rejects(a),
    {
    }

    /// `a` places a piece legally for `player`.
    pub open spec fn place_ok(&self, player: int, a: BlokusAction) -> bool {
        match a {
            BlokusAction::Place { piece_id, orientation, row, col } => self.placement_ok(
                player,
                piece_id,
                orientation,
                row,
                col,
            ),
            BlokusAction::Pass => false,
        }
    }

    /// The placements listed for the anchors `tries` of orientation `ori` of
    /// `piece`: each legal anchor, the first time it is tried.
    pub open spec fn listed(&self, player: int, piece: u8, ori: u8, tries: Seq<(u8, u8)>) -> Seq<BlokusAction>
        decreases tries.len(),
    {
        if tries.len() == 0 {
            Seq::empty()
        } else {
            let rest = self.listed(player, piece, ori, tries.drop_last());
            let a = tries.last();
            if self.placement_ok(player, piece, ori, a.0, a.1) && !tries.drop_last().contains(a) {
                rest.push(BlokusAction::Place { piece_id: piece, orientation: ori, row: a.0, col: a.1 })
            } else {
                rest
            }
        }
    }

    /// `shape` anchored at `(r, c)` lies on the board.
    pub open spec fn anchor_fits(shape: PolyominoShape, r: int, c: int) -> bool {
        r + shape.height <= B && c + shape.width <= B
    }

    /// Every placement of orientation `ori` of `piece` in `out` has its anchor
    /// marked in `visited`.
    pub open spec fn anchors_marked(out: Seq<BlokusAction>, piece: u8, ori: u8, visited: [[bool; 30]; 30]) -> bool {
        forall|r: u8, c: u8|
            #[trigger] out.contains(BlokusAction::Place { piece_id: piece, orientation: ori, row: r, col: c }) ==> r
                < 30 && c < 30 && visited@[r as int]@[c as int]
    }

    /// Every action of `b` is in `a` or places orientation `ori` of `piece`.
    pub open spec fn grows_by(a: Seq<BlokusAction>, b: Seq<BlokusAction>, piece: u8, ori: u8) -> bool {
        forall|x: BlokusAction| #[trigger] b.contains(x) ==> a.contains(x) || key_is(x, piece as int, ori as int)
    }

    /// Every legal placement of orientation `ori` of `piece` is listed in `out`.
    pub open spec fn covers(&self, player: int, piece: u8, ori: u8, out: Seq<BlokusAction>) -> bool {
        forall|r: u8, c: u8|
            #[trigger] self.placement_ok(player, piece, ori, r, c) ==> out.contains(
                BlokusAction::Place { piece_id: piece, orientation: ori, row: r, col: c },
            )
    }

    /// Considers the anchor `(ar, ac)`: when the shape fits on the board and the
    /// anchor was not seen before, marks it seen and lists it if legal.
    fn try_anchor(
        &self,
        player: usize,
        piece_id: u8,
        ori: u8,
        shapes: &[PolyominoShape],
        ar: u8,
        ac: u8,
        visited: &mut [[bool; 30]; 30],
        out: &mut Vec<BlokusAction>,
    )
        requires
            Self::dims_ok(),
            player < P,
            piece_id < 21,
            orientations_match(shapes@, piece_id as int),
            (ori as int) < shapes@.len(),
            forall|r: u8, c: u8|
                r < 30 && c < 30 && old(visited)@[r as int]@[c as int] ==> (#[trigger] self.placement_ok(
                    player as int,
                    piece_id,
                    ori,
                    r,
                    c,
                ) ==> old(out)@.contains(
                    BlokusAction::Place { piece_id: piece_id, orientation: ori, row: r, col: c },
                )),
            forall|i: int| 0 <= i < old(out)@.len() ==> self.place_ok(player as int, #[trigger] old(out)@[i]),
            old(out)@.no_duplicates(),
            Self::anchors_marked(old(out)@, piece_id, ori, *old(visited)),
        ensures
            forall|r: int, c: int|
                0 <= r < 30 && 0 <= c < 30 ==> #[trigger] final(visited)@[r]@[c] == (old(visited)@[r]@[c] || (r
                    == ar && c == ac && Self::anchor_fits(shapes@[ori as int], r, c))),
            final(out)@ == if self.placement_ok(player as int, piece_id, ori, ar, ac) && !old(
                visited,
            )@[ar as int]@[ac as int] {
                old(out)@.push(BlokusAction::Place { piece_id: piece_id, orientation: ori, row: ar, col: ac })
            } else {
                old(out)@
            },
            self.placement_ok(player as int, piece_id, ori, ar, ac) ==> ar < 30 && ac < 30 && Self::anchor_fits(
                shapes@[ori as int],
                ar as int,
                ac as int,
            ),
            final(out)@.no_duplicates(),
            Self::anchors_marked(final(out)@, piece_id, ori, *final(visited)),
            Self::grows_by(old(out)@, final(out)@, piece_id, ori),
            forall|r: u8, c: u8|
                r < 30 && c < 30 && final(visited)@[r as int]@[c as int] ==> (#[trigger] self.placement_ok(
                    player as int,
                    piece_id,
                    ori,
                    r,
                    c,
                ) ==> final(out)@.contains(
                    BlokusAction::Place { piece_id: piece_id, orientation: ori, row: r, col: c },
                )),
            forall|i: int| 0 <= i < final(out)@.len() ==> self.place_ok(player as int, #[trigger] final(out)@[i]),
            forall|a: BlokusAction| old(out)@.contains(a) ==> final(out)@.contains(a),
            self.placement_ok(player as int, piece_id, ori, ar, ac) ==> final(out)@.contains(
                BlokusAction::Place { piece_id: piece_id, orientation: ori, row: ar, col: ac },
            ),
    {
        let shape = &shapes[ori as usize];
        let ghost cells = piece_orientations(piece_id as int)[ori as int];
        if (ar as usize) + (shape.height as usize) <= B && (ac as usize) + (shape.width as usize) <= B {
            if !visited[ar as usize][ac as usize] {
                let ghost old_out = out@;
                let ghost old_vis = *visited;
                visited[ar as usize][ac as usize] = true;
                if self.placement_valid_in(player, piece_id, ori, ar, ac, shapes) {
                    let ghost new_a = BlokusAction::Place { piece_id, orientation: ori, row: ar, col: ac };
                    assert(!old_out.contains(new_a));
                    out.push(BlokusAction::Place { piece_id, orientation: ori, row: ar, col: ac });
                    proof {
                        assert(out@.no_duplicates()) by {
                            assert forall|i: int, j: int| 0 <= i < out@.len() && 0 <= j < out@.len() && i != j implies out@[i] != out@[j] by {
                                if i == old_out.len() as int {
                                    assert(old_out.contains(out@[j]) ==> out@[j] != new_a);
                                    assert(old_out[j] == out@[j]);
                                } else if j == old_out.len() as int {
                                    assert(old_out[i] == out@[i]);
                                }
                            }
                        }
                        assert forall|x: BlokusAction| #[trigger] out@.contains(x) implies old_out.contains(x) || key_is(x, piece_id as int, ori as int) by {
                            lemma_push_contains(old_out, new_a, x);
                        }
                        assert forall|r: u8, c: u8|
                            #[trigger] out@.contains(BlokusAction::Place { piece_id: piece_id, orientation: ori, row: r, col: c }) implies r
                                < 30 && c < 30 && visited@[r as int]@[c as int] by {
                            lemma_push_contains(old_out, new_a, BlokusAction::Place { piece_id: piece_id, orientation: ori, row: r, col: c });
                        }
                        assert forall|a: BlokusAction| old_out.contains(a) implies out@.contains(a) by {
                            lemma_push_contains(old_out, BlokusAction::Place { piece_id, orientation: ori, row: ar, col: ac }, a);
                        }
                        lemma_push_contains(old_out, BlokusAction::Place { piece_id, orientation: ori, row: ar, col: ac }, BlokusAction::Place { piece_id, orientation: ori, row: ar, col: ac });
                    }
                }
                assert forall|r: u8, c: u8|
                    r < 30 && c < 30 && visited@[r as int]@[c as int] && #[trigger] self.placement_ok(
                        player as int,
                        piece_id,
                        ori,
                        r,
                        c,
                    ) implies out@.contains(
                        BlokusAction::Place { piece_id: piece_id, orientation: ori, row: r, col: c },
                    ) by {
                    if r != ar || c != ac {
                        assert(old_vis@[r as int]@[c as int]);
                    }
                }
            }
        } else {
            proof {
                let shape_v = shapes@[ori as int];
                assert(shape_v.cells() == cells);
                if (ar as usize) + (shape.height as usize) > B {
                    let i = choose|i: int| 0 <= i < shape_v.num_squares && (#[trigger] shape_v.squares@[i]).0 + 1 == shape_v.height;
                    assert(Self::at(cells, i, ar as int, ac as int).0 >= B);
                } else {
                    let i = choose|i: int| 0 <= i < shape_v.num_squares && (#[trigger] shape_v.squares@[i]).1 + 1 == shape_v.width;
                    assert(Self::at(cells, i, ar as int, ac as int).1 >= B);
                }
            }
        }
    }
}

impl<const B: usize, const P: usize> BlokusState<B, P> {
    /// The anchor that puts square `k` of `cells` on `pt` has been handled:
    /// when legal, it is listed in `out`.
    pub open spec fn anchor_done(
        &self,
        player: int,
        piece: u8,
        ori: u8,
        cells: Seq<(u8, u8)>,
        pt: (u8, u8),
        k: int,
        out: Seq<BlokusAction>,
    ) -> bool {
        (pt.0 >= cells[k].0 && pt.1 >= cells[k].1) ==> (self.placement_ok(
            player,
            piece,
            ori,
            (pt.0 - cells[k].0) as u8,
            (pt.1 - cells[k].1) as u8,
        ) ==> out.contains(
            BlokusAction::Place {
                piece_id: piece,
                orientation: ori,
                row: (pt.0 - cells[k].0) as u8,
                col: (pt.1 - cells[k].1) as u8,
            },
        ))
    }

    proof fn lemma_grows_trans(a: Seq<BlokusAction>, b: Seq<BlokusAction>, c: Seq<BlokusAction>, piece: u8, ori: u8)
        requires
            Self::grows_by(a, b, piece, ori),
            Self::grows_by(b, c, piece, ori),
        ensures
            Self::grows_by(a, c, piece, ori),
    {
        assert forall|x: BlokusAction| #[trigger] c.contains(x) implies a.contains(x) || key_is(x, piece as int, ori as int) by {
            if !key_is(x, piece as int, ori as int) {
                assert(b.contains(x));
            }
        }
    }

    proof fn lemma_covers_mono(&self, player: int, piece: u8, ori: u8, a: Seq<BlokusAction>, b: Seq<BlokusAction>)
        requires
            self.covers(player, piece, ori, a),
            forall|x: BlokusAction| a.contains(x) ==> b.contains(x),
        ensures
            self.covers(player, piece, ori, b),
    {
        assert forall|r: u8, c: u8| #[trigger] self.placement_ok(player, piece, ori, r, c) implies b.contains(
            BlokusAction::Place { piece_id: piece, orientation: ori, row: r, col: c },
        ) by {
            assert(a.contains(BlokusAction::Place { piece_id: piece, orientation: ori, row: r, col: c }));
        }
    }

    /// Lists every legal first-move placement of orientation `ori` of `piece`:
    /// the anchors that put one of its squares on the start square.
    fn gen_first(
        &self,
        player: usize,
        piece_id: u8,
        ori: u8,
        shapes: &[PolyominoShape],
        start_r: u8,
        start_c: u8,
        out: &mut Vec<BlokusAction>,
    )
        requires
            Self::dims_ok(),
            player < P,
            piece_id < 21,
            orientations_match(shapes@, piece_id as int),
            (ori as int) < shapes@.len(),
            self.spec_first(player as int),
            (start_r as int, start_c as int) == Self::spec_start(player as int),
            forall|i: int| 0 <= i < old(out)@.len() ==> self.place_ok(player as int, #[trigger] old(out)@[i]),
            old(out)@.no_duplicates(),
            forall|r: u8, c: u8|
                !#[trigger] old(out)@.contains(BlokusAction::Place { piece_id: piece_id, orientation: ori, row: r, col: c }),
        ensures
            forall|i: int| 0 <= i < final(out)@.len() ==> self.place_ok(player as int, #[trigger] final(out)@[i]),
            forall|a: BlokusAction| old(out)@.contains(a) ==> final(out)@.contains(a),
            self.covers(player as int, piece_id, ori, final(out)@),
            final(out)@.no_duplicates(),
            Self::grows_by(old(out)@, final(out)@, piece_id, ori),
            final(out)@ == old(out)@ + self.listed(
                player as int,
                piece_id,
                ori,
                anchor_tries(piece_orientations(piece_id as int)[ori as int], seq![(start_r, start_c)], 1),
            ),
    {
        let ghost out0 = out@;
        let mut visited = [[false; 30]; 30];
        let shape = &shapes[ori as usize];
        let ghost cells = piece_orientations(piece_id as int)[ori as int];
        let squares = shape.active_squares();
        let n = squares.len();
        let mut j: usize = 0;
        while j < n
            invariant
                Self::dims_ok(),
                player < P,
                piece_id < 21,
                orientations_match(shapes@, piece_id as int),
                (ori as int) < shapes@.len(),
                j <= n,
                squares@ == cells,
                n == cells.len(),
                cells == piece_orientations(piece_id as int)[ori as int],
                forall|r: u8, c: u8|
                    r < 30 && c < 30 && visited@[r as int]@[c as int] ==> (#[trigger] self.placement_ok(
                        player as int,
                        piece_id,
                        ori,
                        r,
                        c,
                    ) ==> out@.contains(
                        BlokusAction::Place { piece_id: piece_id, orientation: ori, row: r, col: c },
                    )),
                forall|i: int| 0 <= i < out@.len() ==> self.place_ok(player as int, #[trigger] out@[i]),
                forall|a: BlokusAction| out0.contains(a) ==> out@.contains(a),
                out@.no_duplicates(),
                Self::anchors_marked(out@, piece_id, ori, visited),
                Self::grows_by(out0, out@, piece_id, ori),
                forall|r: int, c: int|
                    0 <= r < 30 && 0 <= c < 30 ==> #[trigger] visited@[r]@[c] == (point_tries(
                        cells,
                        (start_r, start_c),
                        j as int,
                    ).contains((r as u8, c as u8)) && Self::anchor_fits(shapes@[ori as int], r, c)),
                out@ == out0 + self.listed(player as int, piece_id, ori, point_tries(cells, (start_r, start_c), j as int)),
                forall|k: int|
                    0 <= k < j ==> #[trigger] self.anchor_done(
                        player as int,
                        piece_id,
                        ori,
                        cells,
                        (start_r, start_c),
                        k,
                        out@,
                    ),
            decreases n - j,
        {
            let (sq_r, sq_c) = squares[j];
            let ghost out1 = out@;
            let ghost tries = point_tries(cells, (start_r, start_c), j as int);
            let ghost vis1 = visited;
            assert(cells[j as int] == (sq_r, sq_c));
            if start_r >= sq_r && start_c >= sq_c {
                self.try_anchor(player, piece_id, ori, shapes, start_r - sq_r, start_c - sq_c, &mut visited, out);
                proof {
                    Self::lemma_grows_trans(out0, out1, out@, piece_id, ori);
                    let a: (u8, u8) = ((start_r - sq_r) as u8, (start_c - sq_c) as u8);
                    let t2 = point_tries(cells, (start_r, start_c), j + 1);
                    assert(t2 == tries.push(a));
                    assert(t2.drop_last() =~= tries);
                    assert forall|x: (u8, u8)| t2.contains(x) <==> (tries.contains(x) || x == a) by {
                        lemma_push_contains(tries, a, x);
                    }
                    assert forall|r: int, c: int| 0 <= r < 30 && 0 <= c < 30 implies #[trigger] visited@[r]@[c] == (t2.contains(
                        (r as u8, c as u8),
                    ) && Self::anchor_fits(shapes@[ori as int], r, c)) by {
                        assert(vis1@[r]@[c] == (tries.contains((r as u8, c as u8)) && Self::anchor_fits(shapes@[ori as int], r, c)));
                    }
                    assert(out@ =~= out0 + self.listed(player as int, piece_id, ori, t2));
                }
            }
            assert forall|k: int| 0 <= k < j + 1 implies #[trigger] self.anchor_done(
                player as int,
                piece_id,
                ori,
                cells,
                (start_r, start_c),
                k,
                out@,
            ) by {
                if k < j {
                    assert(self.anchor_done(player as int, piece_id, ori, cells, (start_r, start_c), k, out1));
                }
            }
            j += 1;
        }
        proof {
            let pts = seq![(start_r, start_c)];
            assert(pts[0] == (start_r, start_c));
            assert(anchor_tries(cells, pts, 0) == Seq::<(u8, u8)>::empty());
            assert(anchor_tries(cells, pts, 1) == anchor_tries(cells, pts, 0) + point_tries(cells, pts[0], cells.len() as int));
            assert(anchor_tries(cells, pts, 1) =~= point_tries(cells, (start_r, start_c), n as int));
        }
        assert forall|r: u8, c: u8| #[trigger] self.placement_ok(player as int, piece_id, ori, r, c) implies out@.contains(
            BlokusAction::Place { piece_id: piece_id, orientation: ori, row: r, col: c },
        ) by {
            let k = choose|k: int| 0 <= k < cells.len() && #[trigger] Self::at(cells, k, r as int, c as int) == Self::spec_start(player as int);
            assert(self.anchor_done(player as int, piece_id, ori, cells, (start_r, start_c), k, out@));
        }
    }

    /// Lists every legal placement of orientation `ori` of `piece` that puts
    /// one of its squares on one of the free `corners` of `player`.
    fn gen_corners(
        &self,
        player: usize,
        piece_id: u8,
        ori: u8,
        shapes: &[PolyominoShape],
        corners: &Vec<(u8, u8)>,
        out: &mut Vec<BlokusAction>,
    )
        requires
            Self::dims_ok(),
            player < P,
            piece_id < 21,
            orientations_match(shapes@, piece_id as int),
            (ori as int) < shapes@.len(),
            !self.spec_first(player as int),
            forall|i: int| 0 <= i < corners@.len() ==> (#[trigger] corners@[i]).0 < B && corners@[i].1 < B,
            forall|r: int, c: int|
                0 <= r < B && 0 <= c < B ==> (corners@.contains((r as u8, c as u8))
                    <==> #[trigger] self.free_corner(r, c, player as u8)),
            forall|i: int| 0 <= i < old(out)@.len() ==> self.place_ok(player as int, #[trigger] old(out)@[i]),
            old(out)@.no_duplicates(),
            forall|r: u8, c: u8|
                !#[trigger] old(out)@.contains(BlokusAction::Place { piece_id: piece_id, orientation: ori, row: r, col: c }),
        ensures
            forall|i: int| 0 <= i < final(out)@.len() ==> self.place_ok(player as int, #[trigger] final(out)@[i]),
            forall|a: BlokusAction| old(out)@.contains(a) ==> final(out)@.contains(a),
            self.covers(player as int, piece_id, ori, final(out)@),
            final(out)@.no_duplicates(),
            Self::grows_by(old(out)@, final(out)@, piece_id, ori),
            final(out)@ == old(out)@ + self.listed(
                player as int,
                piece_id,
                ori,
                anchor_tries(piece_orientations(piece_id as int)[ori as int], corners@, corners@.len() as int),
            ),
    {
        let ghost out0 = out@;
        let mut visited = [[false; 30]; 30];
        let shape = &shapes[ori as usize];
        let ghost cells = piece_orientations(piece_id as int)[ori as int];
        let squares = shape.active_squares();
        let n = squares.len();
        let mut ci: usize = 0;
        while ci < corners.len()
            invariant
                Self::dims_ok(),
                player < P,
                piece_id < 21,
                orientations_match(shapes@, piece_id as int),
                (ori as int) < shapes@.len(),
                ci <= corners@.len(),
                squares@ == cells,
                n == cells.len(),
                cells == piece_orientations(piece_id as int)[ori as int],
                forall|r: u8, c: u8|
                    r < 30 && c < 30 && visited@[r as int]@[c as int] ==> (#[trigger] self.placement_ok(
                        player as int,
                        piece_id,
                        ori,
                        r,
                        c,
                    ) ==> out@.contains(
                        BlokusAction::Place { piece_id: piece_id, orientation: ori, row: r, col: c },
                    )),
                forall|i: int| 0 <= i < out@.len() ==> self.place_ok(player as int, #[trigger] out@[i]),
                forall|a: BlokusAction| out0.contains(a) ==> out@.contains(a),
                out@.no_duplicates(),
                Self::anchors_marked(out@, piece_id, ori, visited),
                Self::grows_by(out0, out@, piece_id, ori),
                forall|r: int, c: int|
                    0 <= r < 30 && 0 <= c < 30 ==> #[trigger] visited@[r]@[c] == (anchor_tries(
                        cells,
                        corners@,
                        ci as int,
                    ).contains((r as u8, c as u8)) && Self::anchor_fits(shapes@[ori as int], r, c)),
                out@ == out0 + self.listed(player as int, piece_id, ori, anchor_tries(cells, corners@, ci as int)),
                forall|q: int, k: int|
                    0 <= q < ci && 0 <= k < n ==> #[trigger] self.anchor_done(
                        player as int,
                        piece_id,
                        ori,
                        cells,
                        corners@[q],
                        k,
                        out@,
                    ),
            decreases corners@.len() - ci,
        {
            let (cr, cc) = corners[ci];
            let ghost out_ci = out@;
            proof {
                assert(anchor_tries(cells, corners@, ci as int) + point_tries(cells, (cr, cc), 0) =~= anchor_tries(
                    cells,
                    corners@,
                    ci as int,
                ));
            }
            let mut j: usize = 0;
            while j < n
                invariant
                    Self::dims_ok(),
                    player < P,
                    piece_id < 21,
                    orientations_match(shapes@, piece_id as int),
                    (ori as int) < shapes@.len(),
                    ci < corners@.len(),
                    (cr, cc) == corners@[ci as int],
                    j <= n,
                    squares@ == cells,
                    n == cells.len(),
                    cells == piece_orientations(piece_id as int)[ori as int],
                    forall|r: u8, c: u8|
                        r < 30 && c < 30 && visited@[r as int]@[c as int] ==> (#[trigger] self.placement_ok(
                            player as int,
                            piece_id,
                            ori,
                            r,
                            c,
                        ) ==> out@.contains(
                            BlokusAction::Place { piece_id: piece_id, orientation: ori, row: r, col: c },
                        )),
                    forall|i: int| 0 <= i < out@.len() ==> self.place_ok(player as int, #[trigger] out@[i]),
                    forall|a: BlokusAction| out_ci.contains(a) ==> out@.contains(a),
                    out@.no_duplicates(),
                    Self::anchors_marked(out@, piece_id, ori, visited),
                    Self::grows_by(out0, out@, piece_id, ori),
                    forall|r: int, c: int|
                        0 <= r < 30 && 0 <= c < 30 ==> #[trigger] visited@[r]@[c] == ((anchor_tries(
                            cells,
                            corners@,
                            ci as int,
                        ) + point_tries(cells, (cr, cc), j as int)).contains((r as u8, c as u8)) && Self::anchor_fits(
                            shapes@[ori as int],
                            r,
                            c,
                        )),
                    out@ == out0 + self.listed(
                        player as int,
                        piece_id,
                        ori,
                        anchor_tries(cells, corners@, ci as int) + point_tries(cells, (cr, cc), j as int),
                    ),
                    forall|k: int|
                        0 <= k < j ==> #[trigger] self.anchor_done(
                            player as int,
                            piece_id,
                            ori,
                            cells,
                            (cr, cc),
                            k,
                            out@,
                        ),
                decreases n - j,
            {
                let (sq_r, sq_c) = squares[j];
                let ghost out1 = out@;
                let ghost tries = anchor_tries(cells, corners@, ci as int) + point_tries(cells, (cr, cc), j as int);
                let ghost vis1 = visited;
                assert(cells[j as int] == (sq_r, sq_c));
                if cr >= sq_r && cc >= sq_c {
                    self.try_anchor(player, piece_id, ori, shapes, cr - sq_r, cc - sq_c, &mut visited, out);
                    proof {
                        Self::lemma_grows_trans(out0, out1, out@, piece_id, ori);
                        let a: (u8, u8) = ((cr - sq_r) as u8, (cc - sq_c) as u8);
                        let t2 = anchor_tries(cells, corners@, ci as int) + point_tries(cells, (cr, cc), j + 1);
                        assert(point_tries(cells, (cr, cc), j + 1) == point_tries(cells, (cr, cc), j as int).push(a));
                        assert(t2 =~= tries.push(a));
                        assert(t2.drop_last() =~= tries);
                        assert forall|x: (u8, u8)| t2.contains(x) <==> (tries.contains(x) || x == a) by {
                            lemma_push_contains(tries, a, x);
                        }
                        assert forall|r: int, c: int| 0 <= r < 30 && 0 <= c < 30 implies #[trigger] visited@[r]@[c] == (t2.contains(
                            (r as u8, c as u8),
                        ) && Self::anchor_fits(shapes@[ori as int], r, c)) by {
                            assert(vis1@[r]@[c] == (tries.contains((r as u8, c as u8)) && Self::anchor_fits(shapes@[ori as int], r, c)));
                        }
                        assert(out@ =~= out0 + self.listed(player as int, piece_id, ori, t2));
                    }
                } else {
                    proof {
                        assert(point_tries(cells, (cr, cc), j + 1) == point_tries(cells, (cr, cc), j as int));
                    }
                }
                assert forall|k: int| 0 <= k < j + 1 implies #[trigger] self.anchor_done(
                    player as int,
                    piece_id,
                    ori,
                    cells,
                    (cr, cc),
                    k,
                    out@,
                ) by {
                    if k < j {
                        assert(self.anchor_done(player as int, piece_id, ori, cells, (cr, cc), k, out1));
                    }
                }
                j += 1;
            }
            assert forall|q: int, k: int| 0 <= q < ci + 1 && 0 <= k < n implies #[trigger] self.anchor_done(
                player as int,
                piece_id,
                ori,
                cells,
                corners@[q],
                k,
                out@,
            ) by {
                if q < ci {
                    assert(self.anchor_done(player as int, piece_id, ori, cells, corners@[q], k, out_ci));
                }
            }
            proof {
                assert(anchor_tries(cells, corners@, ci + 1) == anchor_tries(cells, corners@, ci as int) + point_tries(
                    cells,
                    corners@[ci as int],
                    cells.len() as int,
                ));
            }
            ci += 1;
        }
        assert forall|r: u8, c: u8| #[trigger] self.placement_ok(player as int, piece_id, ori, r, c) implies out@.contains(
            BlokusAction::Place { piece_id: piece_id, orientation: ori, row: r, col: c },
        ) by {
            let p = player as u8;
            let k = choose|k: int|
                0 <= k < cells.len() && self.corner_touch(
                    #[trigger] Self::at(cells, k, r as int, c as int).0,
                    Self::at(cells, k, r as int, c as int).1,
                    p,
                );
            let pt = Self::at(cells, k, r as int, c as int);
            assert(!self.edge_touch(pt.0, pt.1, p));
            assert(self.cell(pt.0, pt.1) == EMPTY);
            assert(self.free_corner(pt.0, pt.1, p));
            assert(corners@.contains((pt.0 as u8, pt.1 as u8)));
            let q = choose|q: int| 0 <= q < corners@.len() && corners@[q] == (pt.0 as u8, pt.1 as u8);
            assert(self.anchor_done(player as int, piece_id, ori, cells, corners@[q], k, out@));
        }
    }
}

impl<const B: usize, const P: usize> BlokusState<B, P> {
    /// Placement actions of every piece below `piece` are all listed.
    pub open spec fn all_covered_below(&self, player: int, piece: u8, out: Seq<BlokusAction>) -> bool {
        forall|p: u8, o: u8| p < piece ==> #[trigger] self.covers(player, p, o, out)
    }

    /// The placements listed for the orientations below `o` of `piece`, each
    /// tried at the points `pts`.
    pub open spec fn piece_list(&self, player: int, piece: u8, o: int, pts: Seq<(u8, u8)>) -> Seq<BlokusAction>
        decreases o,
    {
        if o <= 0 {
            Seq::empty()
        } else {
            self.piece_list(player, piece, o - 1, pts) + self.listed(
                player,
                piece,
                (o - 1) as u8,
                anchor_tries(piece_orientations(piece as int)[o - 1], pts, pts.len() as int),
            )
        }
    }

    /// The placements listed for the pieces below `k` that `player` still
    /// has, piece after piece.
    pub open spec fn placements_below(&self, player: int, k: int, pts: Seq<(u8, u8)>) -> Seq<BlokusAction>
        decreases k,
    {
        if k <= 0 {
            Seq::empty()
        } else {
            let rest = self.placements_below(player, k - 1, pts);
            if piece_in_mask(self.remaining_pieces@[player], (k - 1) as u8) {
                rest + self.piece_list(player, (k - 1) as u8, piece_orientations(k - 1).len() as int, pts)
            } else {
                rest
            }
        }
    }

    /// The points at which `player`'s pieces are tried: the start square on
    /// a first move, else the free corners in row-major order.
    pub open spec fn try_points(&self, player: int) -> Seq<(u8, u8)> {
        if self.spec_first(player) {
            seq![(Self::spec_start(player).0 as u8, Self::spec_start(player).1 as u8)]
        } else {
            self.corners_upto(player as u8, B * B)
        }
    }

    /// The legal moves in the order `legal_actions` lists them: for each
    /// piece the player has (by number), each orientation (in the order of
    /// `piece_orientations`), each try point, each square of the shape, the
    /// anchor that puts that square on the point, listed when it is legal and
    /// not tried before; `Pass` alone when nothing is listed; nothing when
    /// the game is over or the player has passed.
    pub open spec fn legal_list(&self) -> Seq<BlokusAction> {
        let pl = self.current_player as int;
        if self.spec_terminal() || self.passed@[pl] {
            Seq::empty()
        } else {
            let l = self.placements_below(pl, 21, self.try_points(pl));
            if l.len() == 0 {
                seq![BlokusAction::Pass]
            } else {
                l
            }
        }
    }

    /// Fills `out` with the legal moves of the player to move: every legal
    /// placement (once each), or `Pass` alone when there is none. The list is
    /// empty when the game is over or the player has already passed.
    pub fn legal_actions(&self, out: &mut Vec<BlokusAction>)
        requires
            Self::dims_ok(),
            self.wf(),
        ensures
            (self.spec_terminal() || self.passed@[self.current_player as int]) ==> final(out)@.len() == 0,
            !(self.spec_terminal() || self.passed@[self.current_player as int]) ==> forall|a: BlokusAction|
                final(out)@.contains(a) <==> #[trigger] self.spec_legal(a),
            final(out)@.no_duplicates(),
            final(out)@ == self.legal_list(),
    {
        out.clear();
        if self.is_terminal() {
            return;
        }
        let player = self.current_player as usize;
        if self.passed[player] {
            return;
        }
        let reg = registry();
        let ghost pts = self.try_points(player as int);
        if self.is_first_move(player) {
            let (sr, sc) = self.start_square(player);
            let start_r = sr as u8;
            let start_c = sc as u8;
            assert(pts == seq![(start_r, start_c)]);
            let mut piece_id: u8 = 0;
            while piece_id < 21
                invariant
                    Self::dims_ok(),
                    player == self.current_player,
                    player < P,
                    reg.wf(),
                    self.spec_first(player as int),
                    (start_r as int, start_c as int) == Self::spec_start(player as int),
                    piece_id <= 21,
                    forall|i: int| 0 <= i < out@.len() ==> self.place_ok(player as int, #[trigger] out@[i]),
                    self.all_covered_below(player as int, piece_id, out@),
                    out@.no_duplicates(),
                    keys_before(out@, piece_id as int, 0),
                    pts == self.try_points(player as int),
                    out@ == self.placements_below(player as int, piece_id as int, pts),
                decreases 21 - piece_id,
            {
                let ghost out_p = out@;
                if self.has_piece(player, piece_id) {
                    let orientations = reg.orientations_of(piece_id as usize);
                    proof {
                        lemma_orientation_count(piece_id as int);
                    }
                    let mut ori: usize = 0;
                    while ori < orientations.len()
                        invariant
                            Self::dims_ok(),
                            player < P,
                            piece_id < 21,
                            orientations_match(orientations@, piece_id as int),
                            self.spec_first(player as int),
                            (start_r as int, start_c as int) == Self::spec_start(player as int),
                            ori <= orientations@.len(),
                            orientations@.len() <= 8,
                            forall|i: int| 0 <= i < out@.len() ==> self.place_ok(player as int, #[trigger] out@[i]),
                            forall|a: BlokusAction| out_p.contains(a) ==> out@.contains(a),
                            forall|o: u8| o < ori ==> #[trigger] self.covers(player as int, piece_id, o, out@),
                            out@.no_duplicates(),
                            keys_before(out@, piece_id as int, ori as int),
                            pts == self.try_points(player as int),
                            out_p == self.placements_below(player as int, piece_id as int, pts),
                            out@ == out_p + self.piece_list(player as int, piece_id, ori as int, pts),
                        decreases orientations@.len() - ori,
                    {
                        let ghost out_o = out@;
                        proof {
                            assert forall|r: u8, c: u8|
                                !#[trigger] out@.contains(
                                    BlokusAction::Place { piece_id: piece_id, orientation: ori as u8, row: r, col: c },
                                ) by {
                                if out@.contains(BlokusAction::Place { piece_id: piece_id, orientation: ori as u8, row: r, col: c }) {
                                    let i = choose|i: int| 0 <= i < out@.len() && out@[i] == BlokusAction::Place { piece_id: piece_id, orientation: ori as u8, row: r, col: c };
                                    assert(keys_before(out@, piece_id as int, ori as int));
                                }
                            }
                        }
                        self.gen_first(player, piece_id, ori as u8, orientations, start_r, start_c, out);
                        proof {
                            assert(out@ =~= out_p + self.piece_list(player as int, piece_id, ori + 1, pts));
                            assert forall|i: int| 0 <= i < out@.len() implies match #[trigger] out@[i] {
                                BlokusAction::Place { piece_id: pp, orientation: oo, .. } => pp < piece_id as int || (pp == piece_id as int
                                    && oo < ori + 1),
                                BlokusAction::Pass => false,
                            } by {
                                assert(out@.contains(out@[i]));
                                if out_o.contains(out@[i]) {
                                    let k = choose|k: int| 0 <= k < out_o.len() && out_o[k] == out@[i];
                                    assert(keys_before(out_o, piece_id as int, ori as int));
                                }
                            }
                        }
                        assert forall|o: u8| o < ori + 1 implies #[trigger] self.covers(player as int, piece_id, o, out@) by {
                            if o < ori {
                                self.lemma_covers_mono(player as int, piece_id, o, out_o, out@);
                            }
                        }
                        ori += 1;
                    }
                    assert forall|o: u8| #[trigger] self.covers(player as int, piece_id, o, out@) by {
                        if o as int >= orientations@.len() {
                            assert forall|r: u8, c: u8| !#[trigger] self.placement_ok(player as int, piece_id, o, r, c) by {}
                        }
                    }
                } else {
                    assert forall|o: u8| #[trigger] self.covers(player as int, piece_id, o, out@) by {
                        assert forall|r: u8, c: u8| !#[trigger] self.placement_ok(player as int, piece_id, o, r, c) by {}
                    }
                }
                assert forall|p: u8, o: u8| p < piece_id + 1 implies #[trigger] self.covers(player as int, p, o, out@) by {
                    if p < piece_id {
                        assert(self.covers(player as int, p, o, out_p));
                        self.lemma_covers_mono(player as int, p, o, out_p, out@);
                    }
                }
                assert(out@ == self.placements_below(player as int, piece_id + 1, pts));
                piece_id += 1;
            }
        } else {
            let mut corners: Vec<(u8, u8)> = Vec::new();
            self.find_valid_corners(player, &mut corners);
            assert(corners@ == pts);
            let mut piece_id: u8 = 0;
            while piece_id < 21
                invariant
                    Self::dims_ok(),
                    player == self.current_player,
                    player < P,
                    reg.wf(),
                    !self.spec_first(player as int),
                    corners@ == pts,
                    forall|i: int| 0 <= i < corners@.len() ==> (#[trigger] corners@[i]).0 < B && corners@[i].1 < B,
                    forall|r: int, c: int|
                        0 <= r < B && 0 <= c < B ==> (corners@.contains((r as u8, c as u8))
                            <==> #[trigger] self.free_corner(r, c, player as u8)),
                    piece_id <= 21,
                    forall|i: int| 0 <= i < out@.len() ==> self.place_ok(player as int, #[trigger] out@[i]),
                    self.all_covered_below(player as int, piece_id, out@),
                    out@.no_duplicates(),
                    keys_before(out@, piece_id as int, 0),
                    pts == self.try_points(player as int),
                    out@ == self.placements_below(player as int, piece_id as int, pts),
                decreases 21 - piece_id,
            {
                let ghost out_p = out@;
                if self.has_piece(player, piece_id) {
                    let orientations = reg.orientations_of(piece_id as usize);
                    proof {
                        lemma_orientation_count(piece_id as int);
                    }
                    let mut ori: usize = 0;
                    while ori < orientations.len()
                        invariant
                            Self::dims_ok(),
                            player < P,
                            piece_id < 21,
                            orientations_match(orientations@, piece_id as int),
                            !self.spec_first(player as int),
                    corners@ == pts,
                            forall|i: int| 0 <= i < corners@.len() ==> (#[trigger] corners@[i]).0 < B && corners@[i].1 < B,
                            forall|r: int, c: int|
                                0 <= r < B && 0 <= c < B ==> (corners@.contains((r as u8, c as u8))
                                    <==> #[trigger] self.free_corner(r, c, player as u8)),
                            ori <= orientations@.len(),
                            orientations@.len() <= 8,
                            forall|i: int| 0 <= i < out@.len() ==> self.place_ok(player as int, #[trigger] out@[i]),
                            forall|a: BlokusAction| out_p.contains(a) ==> out@.contains(a),
                            forall|o: u8| o < ori ==> #[trigger] self.covers(player as int, piece_id, o, out@),
                            out@.no_duplicates(),
                            keys_before(out@, piece_id as int, ori as int),
                            pts == self.try_points(player as int),
                            out_p == self.placements_below(player as int, piece_id as int, pts),
                            out@ == out_p + self.piece_list(player as int, piece_id, ori as int, pts),
                        decreases orientations@.len() - ori,
                    {
                        let ghost out_o = out@;
                        proof {
                            assert forall|r: u8, c: u8|
                                !#[trigger] out@.contains(
                                    BlokusAction::Place { piece_id: piece_id, orientation: ori as u8, row: r, col: c },
                                ) by {
                                if out@.contains(BlokusAction::Place { piece_id: piece_id, orientation: ori as u8, row: r, col: c }) {
                                    let i = choose|i: int| 0 <= i < out@.len() && out@[i] == BlokusAction::Place { piece_id: piece_id, orientation: ori as u8, row: r, col: c };
                                    assert(keys_before(out@, piece_id as int, ori as int));
                                }
                            }
                        }
                        self.gen_corners(player, piece_id, ori as u8, orientations, &corners, out);
                        proof {
                            assert(out@ =~= out_p + self.piece_list(player as int, piece_id, ori + 1, pts));
                            assert forall|i: int| 0 <= i < out@.len() implies match #[trigger] out@[i] {
                                BlokusAction::Place { piece_id: pp, orientation: oo, .. } => pp < piece_id as int || (pp == piece_id as int
                                    && oo < ori + 1),
                                BlokusAction::Pass => false,
                            } by {
                                assert(out@.contains(out@[i]));
                                if out_o.contains(out@[i]) {
                                    let k = choose|k: int| 0 <= k < out_o.len() && out_o[k] == out@[i];
                                    assert(keys_before(out_o, piece_id as int, ori as int));
                                }
                            }
                        }
                        assert forall|o: u8| o < ori + 1 implies #[trigger] self.covers(player as int, piece_id, o, out@) by {
                            if o < ori {
                                self.lemma_covers_mono(player as int, piece_id, o, out_o, out@);
                            }
                        }
                        ori += 1;
                    }
                    assert forall|o: u8| #[trigger] self.covers(player as int, piece_id, o, out@) by {
                        if o as int >= orientations@.len() {
                            assert forall|r: u8, c: u8| !#[trigger] self.placement_ok(player as int, piece_id, o, r, c) by {}
                        }
                    }
                } else {
                    assert forall|o: u8| #[trigger] self.covers(player as int, piece_id, o, out@) by {
                        assert forall|r: u8, c: u8| !#[trigger] self.placement_ok(player as int, piece_id, o, r, c) by {}
                    }
                }
                assert forall|p: u8, o: u8| p < piece_id + 1 implies #[trigger] self.covers(player as int, p, o, out@) by {
                    if p < piece_id {
                        assert(self.covers(player as int, p, o, out_p));
                        self.lemma_covers_mono(player as int, p, o, out_p, out@);
                    }
                }
                assert(out@ == self.placements_below(player as int, piece_id + 1, pts));
                piece_id += 1;
            }
        }
        let ghost pl = player as int;
        assert forall|p: u8, o: u8| #[trigger] self.covers(pl, p, o, out@) by {
            if p >= 21 {
                assert forall|r: u8, c: u8| !#[trigger] self.placement_ok(pl, p, o, r, c) by {}
            } else {
                assert(self.all_covered_below(pl, 21, out@));
            }
        }
        if out.len() == 0 {
            assert(!self.spec_has_placement(pl)) by {
                if self.spec_has_placement(pl) {
                    let (p, o, r, c) = choose|p: u8, o: u8, r: u8, c: u8| #[trigger] self.placement_ok(pl, p, o, r, c);
                    assert(self.covers(pl, p, o, out@));
                    assert(out@.contains(BlokusAction::Place { piece_id: p, orientation: o, row: r, col: c }));
                }
            }
            out.push(BlokusAction::Pass);
            assert forall|a: BlokusAction| out@.contains(a) <==> #[trigger] self.spec_legal(a) by {
                lemma_push_contains(Seq::<BlokusAction>::empty(), BlokusAction::Pass, a);
                assert(Seq::<BlokusAction>::empty().push(BlokusAction::Pass) == out@);
                match a {
                    BlokusAction::Place { piece_id, orientation, row, col } => {
                        if self.placement_ok(pl, piece_id, orientation, row, col) {
                            assert(self.covers(pl, piece_id, orientation, Seq::<BlokusAction>::empty()));
                        }
                    },
                    BlokusAction::Pass => {},
                }
            }
        } else {
            assert(self.place_ok(pl, out@[0]));
            assert(self.spec_has_placement(pl)) by {
                match out@[0] {
                    BlokusAction::Place { piece_id, orientation, row, col } => {
                        assert(self.placement_ok(pl, piece_id, orientation, row, col));
                    },
                    BlokusAction::Pass => {},
                }
            }
            assert forall|a: BlokusAction| out@.contains(a) <==> #[trigger] self.spec_legal(a) by {
                if out@.contains(a) {
                    let i = choose|i: int| 0 <= i < out@.len() && out@[i] == a;
                    assert(self.place_ok(pl, out@[i]));
                }
                match a {
                    BlokusAction::Place { piece_id, orientation, row, col } => {
                        if self.placement_ok(pl, piece_id, orientation, row, col) {
                            assert(self.covers(pl, piece_id, orientation, out@));
                        }
                    },
                    BlokusAction::Pass => {},
                }
            }
        }
    }
}

/// `(r, c)` is covered by a square of `cells` anchored at `(row, col)`.
pub open spec fn covered(cells: Seq<(u8, u8)>, row: int, col: int, r: int, c: int) -> bool {
    exists|i: int| 0 <= i < cells.len() && row + (#[trigger] cells[i]).0 == r && col + cells[i].1 == c
}

/// Seat `k` steps after `cur`, cyclically among `n` seats.
pub open spec fn seat_after(cur: int, k: int, n: int) -> int {
    (cur + k) % n
}

proof fn lemma_seat_step(cur: int, k: int, n: int)
    requires
        n > 0,
        0 <= cur < n,
        k >= 0,
    ensures
        (if seat_after(cur, k, n) + 1 == n { 0 } else { seat_after(cur, k, n) + 1 }) == seat_after(cur, k + 1, n),
        0 <= seat_after(cur, k, n) < n,
{
    vstd::arithmetic::div_mod::lemma_add_mod_noop(cur + k, 1, n);
    vstd::arithmetic::div_mod::lemma_mod_bound(cur + k, n);
    vstd::arithmetic::div_mod::lemma_mod_self_0(n);
    if n > 1 {
        vstd::arithmetic::div_mod::lemma_small_mod(1nat, n as nat);
    }
    if n == 1 {
        vstd::arithmetic::div_mod::lemma_mod_self_0(1);
    }
    if (cur + k) % n + 1 < n {
        vstd::arithmetic::div_mod::lemma_small_mod(((cur + k) % n + 1) as nat, n as nat);
    }
}

proof fn lemma_seat_cover(cur: int, s: int, n: int) -> (j: int)
    requires
        n > 0,
        0 <= cur < n,
        0 <= s < n,
    ensures
        1 <= j <= n,
        seat_after(cur, j, n) == s,
{
    let j = if s > cur { s - cur } else { s - cur + n };
    if s > cur {
        vstd::arithmetic::div_mod::lemma_small_mod(s as nat, n as nat);
    } else {
        vstd::arithmetic::div_mod::lemma_mod_add_multiples_vanish(s, n);
        vstd::arithmetic::div_mod::lemma_small_mod(s as nat, n as nat);
    }
    j
}

impl<const B: usize, const P: usize> BlokusState<B, P> {
    /// Moves the turn to the next seat (cyclically) that has not passed;
    /// nothing changes when every player has passed.
    fn advance_turn(&mut self)
        requires
            1 <= P <= 4,
            old(self).wf(),
        ensures
            final(self).wf(),
            final(self).board == old(self).board,
            final(self).remaining_pieces == old(self).remaining_pieces,
            final(self).last_piece == old(self).last_piece,
            final(self).passed == old(self).passed,
            final(self).consecutive_passes == old(self).consecutive_passes,
            final(self).move_count == old(self).move_count,
            old(self).spec_all_passed() ==> final(self).current_player == old(self).current_player,
            !old(self).spec_all_passed() ==> exists|k: int|
                1 <= k <= P && final(self).current_player == #[trigger] seat_after(old(self).current_player as int, k, P as int)
                    && !old(self).passed@[final(self).current_player as int] && forall|j: int|
                    1 <= j < k ==> #[trigger] old(self).passed@[seat_after(old(self).current_player as int, j, P as int)],
    {
        let mut all = true;
        let mut q: usize = 0;
        while q < P
            invariant
                q <= P,
                all == forall|p: int| 0 <= p < q ==> #[trigger] self.passed@[p],
            decreases P - q,
        {
            if !self.passed[q] {
                all = false;
            }
            q += 1;
        }
        if all {
            return;
        }
        let ghost cur0 = self.current_player as int;
        proof {
            vstd::arithmetic::div_mod::lemma_small_mod(cur0 as nat, P as nat);
        }
        let mut i: usize = 0;
        while i < P
            invariant
                1 <= P <= 4,
                self.board == old(self).board,
                self.remaining_pieces == old(self).remaining_pieces,
                self.last_piece == old(self).last_piece,
                self.passed == old(self).passed,
                self.consecutive_passes == old(self).consecutive_passes,
                self.move_count == old(self).move_count,
                cur0 == old(self).current_player,
                0 <= cur0 < P,
                i <= P,
                self.current_player < P,
                self.current_player == seat_after(cur0, i as int, P as int),
                forall|j: int| 1 <= j <= i ==> #[trigger] self.passed@[seat_after(cur0, j, P as int)],
                !self.spec_all_passed(),
            decreases P - i,
        {
            proof {
                lemma_seat_step(cur0, i as int, P as int);
            }
            let next = if (self.current_player as usize) + 1 == P { 0 } else { self.current_player as usize + 1 };
            self.current_player = next as u8;
            if !self.passed[next] {
                proof {
                    assert(seat_after(cur0, (i + 1) as int, P as int) == next);
                }
                return;
            }
            i += 1;
        }
        proof {
            assert forall|p: int| 0 <= p < P implies #[trigger] self.passed@[p] by {
                let j = lemma_seat_cover(cur0, p, P as int);
            }
        }
    }
}

impl<const B: usize, const P: usize> BlokusState<B, P> {
    /// `next` is the seat that follows `cur` among those that have not passed
    /// (or `cur` itself when every seat has passed).
    pub open spec fn turn_advanced(cur: int, passed: Seq<bool>, next: int) -> bool {
        if forall|p: int| 0 <= p < P ==> #[trigger] passed[p] {
            next == cur
        } else {
            exists|k: int|
                1 <= k <= P && next == #[trigger] seat_after(cur, k, P as int) && !passed[next] && forall|j: int|
                    1 <= j < k ==> #[trigger] passed[seat_after(cur, j, P as int)]
        }
    }

    /// `t` is the position after the player to move in `s` makes move `a`:
    /// a pass marks the player as passed; a placement paints its squares,
    /// removes the piece from the inventory and marks the player as passed
    /// once the inventory is empty. Either way the turn then moves on.
    pub open spec fn stepped(s: Self, a: BlokusAction, t: Self) -> bool {
        let cur = s.current_player as int;
        match a {
            BlokusAction::Pass => {
                &&& t.board == s.board
                &&& t.remaining_pieces == s.remaining_pieces
                &&& t.last_piece == s.last_piece
                &&& t.passed@ == s.passed@.update(cur, true)
                &&& t.consecutive_passes == s.consecutive_passes + 1
                &&& t.move_count == s.move_count
                &&& Self::turn_advanced(cur, t.passed@, t.current_player as int)
            },
            BlokusAction::Place { piece_id, orientation, row, col } => {
                let cells = piece_orientations(piece_id as int)[orientation as int];
                let mask = s.remaining_pieces@[cur] & !(1u32 << piece_id);
                &&& forall|r: int, c: int|
                    0 <= r < B && 0 <= c < B ==> t.cell(r, c) == if covered(cells, row as int, col as int, r, c) {
                        cur as u8
                    } else {
                        s.cell(r, c)
                    }
                &&& t.remaining_pieces@ == s.remaining_pieces@.update(cur, mask)
                &&& t.last_piece@ == s.last_piece@.update(cur, Some(piece_id))
                &&& t.passed@ == if mask == 0 {
                    s.passed@.update(cur, true)
                } else {
                    s.passed@
                }
                &&& t.consecutive_passes == 0
                &&& t.move_count == s.move_count + 1
                &&& Self::turn_advanced(cur, t.passed@, t.current_player as int)
            },
        }
    }

    /// Applies `action` for the player to move.
    ///
    /// Errors when the game is already over, or when a placement is not legal;
    /// the state is then unchanged. A pass marks the player as passed. A
    /// placement paints its squares, removes the piece from the inventory and
    /// marks the player as passed once the inventory is empty. Either way the
    /// turn then moves to the next seat that has not passed.
    pub fn apply_action(&mut self, action: &BlokusAction) -> (res: Result<(), &'static str>)
        requires
            Self::dims_ok(),
            old(self).wf(),
            old(self).move_count < 65535,
        ensures
            final(self).wf(),
            res is Err <==> old(self).rejects(*action),
            res is Err ==> *final(self) == *old(self),
            old(self).spec_terminal() ==> res == Err::<(), &'static str>("Game is already terminal"),
            (!old(self).spec_terminal() && res is Err) ==> res == Err::<(), &'static str>("Invalid piece placement"),
            res is Ok ==> Self::stepped(*old(self), *action, *final(self)),
    {
        if self.is_terminal() {
            return Err("Game is already terminal");
        }
        let player = self.current_player as usize;
        match action {
            BlokusAction::Pass => {
                assert(!(*action is Place));
                self.passed[player] = true;
                self.consecutive_passes += 1;
                let ghost mid = *self;
                self.advance_turn();
                proof {
                    if mid.spec_all_passed() {
                        assert(forall|p: int| 0 <= p < P ==> #[trigger] self.passed@[p]);
                    }
                }
                Ok(())
            },
            BlokusAction::Place { piece_id, orientation, row, col } => {
                if !self.is_valid_placement(player, *piece_id, *orientation, *row, *col) {
                    return Err("Invalid piece placement");
                }
                let orientations = orientations_for(*piece_id as usize);
                let shape = &orientations[*orientation as usize];
                let ghost cells = piece_orientations(*piece_id as int)[*orientation as int];
                let p_byte = player as u8;
                let squares = shape.active_squares();
                let n = squares.len();
                let ghost old_self = *self;
                assert forall|k: int| 0 <= k < n implies (#[trigger] Self::at(cells, k, *row as int, *col as int)).0 < B
                    && Self::at(cells, k, *row as int, *col as int).1 < B by {}
                let mut i: usize = 0;
                while i < n
                    invariant
                        i <= n,
                        n == cells.len(),
                        squares@ == cells,
                        forall|k: int| 0 <= k < n ==> (#[trigger] Self::at(cells, k, *row as int, *col as int)).0 < B
                            && Self::at(cells, k, *row as int, *col as int).1 < B,
                        self.remaining_pieces == old_self.remaining_pieces,
                        self.last_piece == old_self.last_piece,
                        self.passed == old_self.passed,
                        self.current_player == old_self.current_player,
                        self.consecutive_passes == old_self.consecutive_passes,
                        self.move_count == old_self.move_count,
                        forall|r: int, c: int|
                            0 <= r < B && 0 <= c < B ==> #[trigger] self.cell(r, c) == if covered(
                                cells.subrange(0, i as int),
                                *row as int,
                                *col as int,
                                r,
                                c,
                            ) {
                                p_byte
                            } else {
                                old_self.cell(r, c)
                            },
                    decreases n - i,
                {
                    let (dr, dc) = squares[i];
                    let r = (*row as usize) + (dr as usize);
                    let c = (*col as usize) + (dc as usize);
                    assert((r as int, c as int) == Self::at(cells, i as int, *row as int, *col as int));
                    let ghost before = *self;
                    self.board[r][c] = p_byte;
                    proof {
                        assert(cells.subrange(0, i + 1)[i as int] == cells[i as int]);
                        assert forall|rr: int, cc: int| 0 <= rr < B && 0 <= cc < B implies self.cell(rr, cc) == if rr == r && cc == c { p_byte } else { before.cell(rr, cc) } by {
                            if rr != r {
                                assert(self.board@[rr] == before.board@[rr]);
                            }
                        }
                        assert forall|rr: int, cc: int| 0 <= rr < B && 0 <= cc < B implies #[trigger] self.cell(rr, cc) == if covered(
                            cells.subrange(0, i + 1),
                            *row as int,
                            *col as int,
                            rr,
                            cc,
                        ) {
                            p_byte
                        } else {
                            old_self.cell(rr, cc)
                        } by {
                            if covered(cells.subrange(0, i + 1), *row as int, *col as int, rr, cc) {
                                let k = choose|k: int| 0 <= k < i + 1 && *row as int + (#[trigger] cells.subrange(0, i + 1)[k]).0 == rr && *col as int + cells.subrange(0, i + 1)[k].1 == cc;
                                if k < i {
                                    assert(cells.subrange(0, i as int)[k] == cells[k]);
                                }
                            } else {
                                assert(!(rr == r && cc == c));
                                if covered(cells.subrange(0, i as int), *row as int, *col as int, rr, cc) {
                                    let k = choose|k: int| 0 <= k < i && *row as int + (#[trigger] cells.subrange(0, i as int)[k]).0 == rr && *col as int + cells.subrange(0, i as int)[k].1 == cc;
                                    assert(cells.subrange(0, i + 1)[k] == cells[k]);
                                }
                            }
                        }
                    }
                    i += 1;
                }
                assert(cells.subrange(0, n as int) =~= cells);
                let ghost painted = *self;
                self.remaining_pieces[player] = self.remaining_pieces[player] & !(1u32 << *piece_id);
                self.last_piece[player] = Some(*piece_id);
                self.consecutive_passes = 0;
                self.move_count += 1;
                if self.remaining_pieces[player] == 0 {
                    self.passed[player] = true;
                }
                let ghost mid = *self;
                self.advance_turn();
                proof {
                    if mid.spec_all_passed() {
                        assert(forall|p: int| 0 <= p < P ==> #[trigger] self.passed@[p]);
                    }
                    let cur = old(self).current_player as int;
                    let mask = old(self).remaining_pieces@[cur] & !(1u32 << *piece_id);
                    assert(self.remaining_pieces@ == old(self).remaining_pieces@.update(cur, mask));
                    assert(self.last_piece@ == old(self).last_piece@.update(cur, Some(*piece_id)));
                    assert(self.passed@ == if mask == 0 {
                        old(self).passed@.update(cur, true)
                    } else {
                        old(self).passed@
                    });
                    assert(Self::turn_advanced(cur, self.passed@, self.current_player as int));
                    assert(self.move_count == old(self).move_count + 1);
                    assert(self.consecutive_passes == 0);
                    assert forall|r: int, c: int|
                        0 <= r < B && 0 <= c < B implies self.cell(r, c) == if covered(
                            cells,
                            *row as int,
                            *col as int,
                            r,
                            c,
                        ) {
                            cur as u8
                        } else {
                            old(self).cell(r, c)
                        } by {
                        assert(self.cell(r, c) == painted.cell(r, c));
                    }
                }
                Ok(())
            },
        }
    }
}

proof fn lemma_all_sum_bound(k: nat)
    requires
        k <= 21,
    ensures
        unplaced_sum(ALL_PIECES_MASK, k) <= 89,
{
    assert forall|b: u32| b < 21 implies ALL_PIECES_MASK & (1u32 << b) != 0 by {
        assert(b < 21 ==> ALL_PIECES_MASK & (1u32 << b) != 0) by (bit_vector);
    }
    reveal_with_fuel(unplaced_sum, 22);
    lemma_all_sum_mono(k, 21);
}

proof fn lemma_all_sum_mono(a: nat, b: nat)
    requires
        a <= b,
    ensures
        unplaced_sum(ALL_PIECES_MASK, a) <= unplaced_sum(ALL_PIECES_MASK, b),
    decreases b - a,
{
    if a < b {
        lemma_all_sum_mono(a, (b - 1) as nat);
    }
}

} // verus!
