//! Text rendering of Blokus boards, scores and inventories.
use crate::blokus::game::{piece_in_mask, score_of, BlokusState, Player, EMPTY};
use crate::blokus::pieces::{piece_size, spec_piece_size};
use crate::hex::render::{pad2, tint};
use crate::text::{
    decimal, decimal_chars, extend_chars, extend_str, pad_left, pad_right, push_padded_left, push_padded_right,
    signed_decimal, signed_decimal_chars, string_of,
};
use vstd::prelude::*;

verus! {

/// Whether `(r, c)` is some player's starting square.
pub open spec fn is_start_cell<const B: usize, const P: usize>(r: int, c: int) -> bool {
    exists|p: int| 0 <= p < P && #[trigger] BlokusState::<B, P>::spec_start(p) == (r, c)
}

/// The two characters of a cell: a star on a free starting square, a dot on
/// another free square, else the owner's block (coloured) or number.
pub open spec fn cell_token<const B: usize, const P: usize>(st: BlokusState<B, P>, r: int, c: int, use_color: bool) -> Seq<char> {
    let v = st.cell(r, c);
    if v == EMPTY {
        if is_start_cell::<B, P>(r, c) {
            if use_color { "\x1b[35m★ \x1b[0m"@ } else { "★ "@ }
        } else {
            "· "@
        }
    } else if v == 0 {
        if use_color { "\x1b[1;34m██\x1b[0m"@ } else { "0 "@ }
    } else if v == 1 {
        if use_color { "\x1b[1;33m██\x1b[0m"@ } else { "1 "@ }
    } else if v == 2 {
        if use_color { "\x1b[1;31m██\x1b[0m"@ } else { "2 "@ }
    } else if v == 3 {
        if use_color { "\x1b[1;32m██\x1b[0m"@ } else { "3 "@ }
    } else {
        "??"@
    }
}

/// A horizontal rule of `b` cells: `left`, then `──` per cell with `mid`
/// between cells, then `right` and a newline.
pub open spec fn rule(left: Seq<char>, mid: Seq<char>, right: Seq<char>, b: nat) -> Seq<char> {
    left + rule_cells(mid, b, b) + right + "\n"@
}

/// The first `k` segments of a rule across `b` cells.
pub open spec fn rule_cells(mid: Seq<char>, b: nat, k: nat) -> Seq<char>
    decreases k,
{
    if k == 0 {
        Seq::empty()
    } else {
        rule_cells(mid, b, (k - 1) as nat) + "──"@ + if k < b { mid } else { Seq::empty() }
    }
}

/// The column numbers, each right-aligned in two characters and followed by a space.
pub open spec fn column_numbers(k: nat) -> Seq<char>
    decreases k,
{
    if k == 0 {
        Seq::empty()
    } else {
        column_numbers((k - 1) as nat) + pad2(decimal((k - 1) as nat)) + " "@
    }
}

/// The first `k` cells of row `r`, separated by bars.
pub open spec fn board_row_cells<const B: usize, const P: usize>(st: BlokusState<B, P>, r: int, k: nat, use_color: bool) -> Seq<char>
    decreases k,
{
    if k == 0 {
        Seq::empty()
    } else {
        board_row_cells(st, r, (k - 1) as nat, use_color) + cell_token(st, r, k - 1, use_color) + if k < B {
            "│"@
        } else {
            Seq::empty()
        }
    }
}

/// Row `r` and, below all rows but the last, a divider.
pub open spec fn board_row<const B: usize, const P: usize>(st: BlokusState<B, P>, r: int, use_color: bool) -> Seq<char> {
    pad2(decimal(r as nat)) + " │"@ + board_row_cells(st, r, B as nat, use_color) + "│\n"@ + if r + 1 < B {
        rule("   ├"@, "┼"@, "┤"@, B as nat)
    } else {
        Seq::empty()
    }
}

/// The first `k` rows.
pub open spec fn board_rows<const B: usize, const P: usize>(st: BlokusState<B, P>, k: nat, use_color: bool) -> Seq<char>
    decreases k,
{
    if k == 0 {
        Seq::empty()
    } else {
        board_rows(st, (k - 1) as nat, use_color) + board_row(st, k - 1, use_color)
    }
}

/// The board as a grid with numbered rows and columns.
pub open spec fn board_picture<const B: usize, const P: usize>(st: BlokusState<B, P>, use_color: bool) -> Seq<char> {
    "    "@ + column_numbers(B as nat) + "\n"@ + rule("   ┌"@, "┬"@, "┐"@, B as nat) + board_rows(st, B as nat, use_color)
        + rule("   └"@, "┴"@, "┘"@, B as nat)
}

fn push_rule(out: &mut Vec<char>, left: &str, mid: &str, right: &str, b: usize)
    ensures
        final(out)@ == old(out)@ + rule(left@, mid@, right@, b as nat),
{
    let ghost o0 = out@;
    extend_str(out, left);
    let ghost o1 = out@;
    let mut c: usize = 0;
    while c < b
        invariant
            c <= b,
            out@ == o1 + rule_cells(mid@, b as nat, c as nat),
        decreases b - c,
    {
        extend_str(out, "──");
        if c + 1 < b {
            extend_str(out, mid);
        }
        proof {
            assert(out@ =~= o1 + rule_cells(mid@, b as nat, (c + 1) as nat));
        }
        c = c + 1;
    }
    extend_str(out, right);
    extend_str(out, "\n");
    proof {
        assert(out@ =~= o0 + rule(left@, mid@, right@, b as nat));
    }
}

fn push_pad2(out: &mut Vec<char>, n: usize)
    ensures
        final(out)@ == old(out)@ + pad2(decimal(n as nat)),
{
    let d = decimal_chars(n);
    if d.len() < 2 {
        out.push(' ');
    }
    extend_chars(out, d.as_slice());
    proof {
        assert(final(out)@ =~= old(out)@ + pad2(decimal(n as nat)));
    }
}

fn push_token<const B: usize, const P: usize>(out: &mut Vec<char>, st: &BlokusState<B, P>, r: usize, c: usize, use_color: bool)
    requires
        r < B,
        c < B,
        BlokusState::<B, P>::dims_ok(),
    ensures
        final(out)@ == old(out)@ + cell_token(*st, r as int, c as int, use_color),
{
    let v = st.board[r][c];
    if v == EMPTY {
        let mut is_start = false;
        let mut p: usize = 0;
        while p < P
            invariant
                p <= P,
                B >= 5,
                is_start == exists|q: int| 0 <= q < p && #[trigger] BlokusState::<B, P>::spec_start(q) == (r as int, c as int),
            decreases P - p,
        {
            let s = st.start_square(p);
            if s.0 == r && s.1 == c {
                is_start = true;
            }
            p = p + 1;
        }
        if is_start {
            if use_color {
                extend_str(out, "\x1b[35m★ \x1b[0m");
            } else {
                extend_str(out, "★ ");
            }
        } else {
            extend_str(out, "· ");
        }
    } else if v == 0 {
        if use_color { extend_str(out, "\x1b[1;34m██\x1b[0m"); } else { extend_str(out, "0 "); }
    } else if v == 1 {
        if use_color { extend_str(out, "\x1b[1;33m██\x1b[0m"); } else { extend_str(out, "1 "); }
    } else if v == 2 {
        if use_color { extend_str(out, "\x1b[1;31m██\x1b[0m"); } else { extend_str(out, "2 "); }
    } else if v == 3 {
        if use_color { extend_str(out, "\x1b[1;32m██\x1b[0m"); } else { extend_str(out, "3 "); }
    } else {
        extend_str(out, "??");
    }
}

#[verifier::rlimit(40)]
fn push_board_row<const B: usize, const P: usize>(out: &mut Vec<char>, st: &BlokusState<B, P>, r: usize, use_color: bool)
    requires
        r < B,
        BlokusState::<B, P>::dims_ok(),
    ensures
        final(out)@ == old(out)@ + board_row(*st, r as int, use_color),
{
    let ghost o0 = out@;
    push_pad2(out, r);
    extend_str(out, " │");
    let ghost o1 = out@;
    let mut c: usize = 0;
    while c < B
        invariant
            r < B,
            c <= B,
            BlokusState::<B, P>::dims_ok(),
            out@ == o1 + board_row_cells(*st, r as int, c as nat, use_color),
        decreases B - c,
    {
        push_token(out, st, r, c, use_color);
        if c + 1 < B {
            extend_str(out, "│");
        }
        proof {
            assert(out@ =~= o1 + board_row_cells(*st, r as int, (c + 1) as nat, use_color));
        }
        c = c + 1;
    }
    extend_str(out, "│\n");
    let ghost o2 = out@;
    if r + 1 < B {
        push_rule(out, "   ├", "┼", "┤", B);
    }
    proof {
        assert(out@ =~= o0 + board_row(*st, r as int, use_color));
    }
}

/// The board as a grid (see `board_picture`).
pub fn render_board<const B: usize, const P: usize>(state: &BlokusState<B, P>, use_color: bool) -> (s: String)
    requires
        BlokusState::<B, P>::dims_ok(),
    ensures
        s@ == board_picture(*state, use_color),
{
    let mut out: Vec<char> = Vec::new();
    extend_str(&mut out, "    ");
    let ghost o0 = out@;
    let mut c: usize = 0;
    while c < B
        invariant
            c <= B,
            out@ == o0 + column_numbers(c as nat),
        decreases B - c,
    {
        push_pad2(&mut out, c);
        extend_str(&mut out, " ");
        proof {
            assert(out@ =~= o0 + column_numbers((c + 1) as nat));
        }
        c = c + 1;
    }
    extend_str(&mut out, "\n");
    push_rule(&mut out, "   ┌", "┬", "┐", B);
    let ghost o1 = out@;
    let mut r: usize = 0;
    while r < B
        invariant
            r <= B,
            BlokusState::<B, P>::dims_ok(),
            out@ == o1 + board_rows(*state, r as nat, use_color),
        decreases B - r,
    {
        push_board_row(&mut out, state, r, use_color);
        r = r + 1;
    }
    push_rule(&mut out, "   └", "┴", "┘", B);
    proof {
        assert(out@ =~= board_picture(*state, use_color));
    }
    string_of(out.as_slice())
}


/// The display name of piece `id`.
pub open spec fn piece_name_text(id: int) -> Seq<char> {
    if id == 0 {
        "Monomino (1)"@
    } else if id == 1 {
        "Domino (2)"@
    } else if id == 2 {
        "I3"@
    } else if id == 3 {
        "V3"@
    } else if id == 4 {
        "I4"@
    } else if id == 5 {
        "L4"@
    } else if id == 6 {
        "T4"@
    } else if id == 7 {
        "O4"@
    } else if id == 8 {
        "Z4"@
    } else if id == 9 {
        "F5"@
    } else if id == 10 {
        "I5"@
    } else if id == 11 {
        "L5"@
    } else if id == 12 {
        "P5"@
    } else if id == 13 {
        "N5"@
    } else if id == 14 {
        "T5"@
    } else if id == 15 {
        "U5"@
    } else if id == 16 {
        "V5"@
    } else if id == 17 {
        "W5"@
    } else if id == 18 {
        "X5"@
    } else if id == 19 {
        "Y5"@
    } else {
        "Z5"@
    }
}

/// The display name of piece `id` (0 to 20).
pub fn piece_name(id: usize) -> (s: &'static str)
    requires
        id < 21,
    ensures
        s@ == piece_name_text(id as int),
{
    if id == 0 {
        "Monomino (1)"
    } else if id == 1 {
        "Domino (2)"
    } else if id == 2 {
        "I3"
    } else if id == 3 {
        "V3"
    } else if id == 4 {
        "I4"
    } else if id == 5 {
        "L4"
    } else if id == 6 {
        "T4"
    } else if id == 7 {
        "O4"
    } else if id == 8 {
        "Z4"
    } else if id == 9 {
        "F5"
    } else if id == 10 {
        "I5"
    } else if id == 11 {
        "L5"
    } else if id == 12 {
        "P5"
    } else if id == 13 {
        "N5"
    } else if id == 14 {
        "T5"
    } else if id == 15 {
        "U5"
    } else if id == 16 {
        "V5"
    } else if id == 17 {
        "W5"
    } else if id == 18 {
        "X5"
    } else if id == 19 {
        "Y5"
    } else {
        "Z5"
    }
}

/// The name of player `p`.
pub open spec fn player_name(p: int) -> Seq<char> {
    if p == 0 {
        "Blue"@
    } else if p == 1 {
        "Yellow"@
    } else if p == 2 {
        "Red"@
    } else {
        "Green"@
    }
}

/// The colour code of player `p`'s scoreboard row.
pub open spec fn player_color(p: int) -> Seq<char> {
    if p == 0 {
        "\x1b[1;34m"@
    } else if p == 1 {
        "\x1b[1;33m"@
    } else if p == 2 {
        "\x1b[1;31m"@
    } else if p == 3 {
        "\x1b[1;32m"@
    } else {
        ""@
    }
}

/// Whether player `p` is to move, has passed, or waits.
pub open spec fn status_text<const B: usize, const P: usize>(st: BlokusState<B, P>, p: int) -> Seq<char> {
    if !st.spec_terminal() && st.current_player == p {
        "► ACTIVE ◄"@
    } else if st.passed@[p] {
        "Passed"@
    } else {
        "Waiting"@
    }
}

/// The start of player `p`'s scoreboard row: number and name.
pub open spec fn row_head(p: int, use_color: bool) -> Seq<char> {
    if use_color {
        "│ "@ + player_color(p) + "Player "@ + decimal(p as nat) + "\x1b[0m │ "@ + player_color(p) + pad_right(
            player_name(p),
            10,
        ) + "\x1b[0m"@
    } else {
        "│ Player "@ + decimal(p as nat) + " │ "@ + pad_right(player_name(p), 10)
    }
}

/// The rest of player `p`'s scoreboard row: score, unplaced squares, status.
pub open spec fn row_tail<const B: usize, const P: usize>(st: BlokusState<B, P>, p: int) -> Seq<char> {
    " │ "@ + pad_right(signed_decimal(score_of(st.spec_unplaced(p), st.last_piece@[p])), 8) + " │ "@ + pad_right(
        decimal(st.spec_unplaced(p) as nat),
        8,
    ) + " │ "@ + pad_right(status_text(st, p), 15) + " │\n"@
}

/// Player `p`'s scoreboard row: name, score, unplaced squares and status.
pub open spec fn score_row<const B: usize, const P: usize>(st: BlokusState<B, P>, p: int, use_color: bool) -> Seq<char> {
    row_head(p, use_color) + row_tail(st, p)
}

/// The rows of the first `k` players.
pub open spec fn score_rows<const B: usize, const P: usize>(st: BlokusState<B, P>, k: int, use_color: bool) -> Seq<char>
    decreases k,
{
    if k <= 0 {
        Seq::empty()
    } else {
        score_rows(st, k - 1, use_color) + score_row(st, k - 1, use_color)
    }
}

/// The scoreboard's title and column heads.
pub open spec fn scoreboard_head() -> Seq<char> {
    "┌─────────────────────────────────────────────────────────────┐\n"@
        + "│                     BLOKUS SCOREBOARD                       │\n"@
        + "├────────┬────────────┬──────────┬──────────┬─────────────────┤\n"@
        + "│ Player │ Name       │ Score    │ Unplaced │ Status          │\n"@
        + "├────────┼────────────┼──────────┼──────────┼─────────────────┤\n"@
}

/// The whole scoreboard.
pub open spec fn scoreboard_text<const B: usize, const P: usize>(st: BlokusState<B, P>, use_color: bool) -> Seq<char> {
    scoreboard_head() + score_rows(st, P as int, use_color)
        + "└────────┴────────────┴──────────┴──────────┴─────────────────┘\n"@
}

fn push_player_name(out: &mut Vec<char>, p: usize)
    requires
        p < 4,
    ensures
        final(out)@ == old(out)@ + player_name(p as int),
{
    let name = Player::from_index(p).name();
    extend_str(out, name);
}

fn push_row_head(out: &mut Vec<char>, p: usize, use_color: bool)
    requires
        p < 4,
    ensures
        final(out)@ == old(out)@ + row_head(p as int, use_color),
{
    let color_code = match p {
        0 => "\x1b[1;34m",
        1 => "\x1b[1;33m",
        2 => "\x1b[1;31m",
        3 => "\x1b[1;32m",
        _ => "",
    };
    let mut name: Vec<char> = Vec::new();
    push_player_name(&mut name, p);
    if use_color {
        extend_str(out, "│ ");
        extend_str(out, color_code);
        extend_str(out, "Player ");
        extend_chars(out, decimal_chars(p).as_slice());
        extend_str(out, "\x1b[0m │ ");
        extend_str(out, color_code);
        push_padded_right(out, name.as_slice(), 10);
        extend_str(out, "\x1b[0m");
    } else {
        extend_str(out, "│ Player ");
        extend_chars(out, decimal_chars(p).as_slice());
        extend_str(out, " │ ");
        push_padded_right(out, name.as_slice(), 10);
    }
}

fn push_row_tail<const B: usize, const P: usize>(out: &mut Vec<char>, state: &BlokusState<B, P>, p: usize)
    requires
        p < P <= 4,
    ensures
        final(out)@ == old(out)@ + row_tail(*state, p as int),
{
    let score = state.score(p);
    let unplaced = state.unplaced_squares(p);
    let is_active = !state.is_terminal() && state.current_player as usize == p;
    let status = if is_active {
        "► ACTIVE ◄"
    } else if state.passed[p] {
        "Passed"
    } else {
        "Waiting"
    };
    extend_str(out, " │ ");
    push_padded_right(out, signed_decimal_chars(score).as_slice(), 8);
    extend_str(out, " │ ");
    push_padded_right(out, decimal_chars(unplaced as usize).as_slice(), 8);
    extend_str(out, " │ ");
    let st = crate::text::chars_of(status);
    assert(st@ == status_text(*state, p as int));
    push_padded_right(out, st.as_slice(), 15);
    extend_str(out, " │\n");
}

fn push_score_row<const B: usize, const P: usize>(out: &mut Vec<char>, state: &BlokusState<B, P>, p: usize, use_color: bool)
    requires
        p < P <= 4,
    ensures
        final(out)@ == old(out)@ + score_row(*state, p as int, use_color),
{
    let ghost start = out@;
    push_row_head(out, p, use_color);
    push_row_tail(out, state, p);
    assert(out@ == start + row_head(p as int, use_color) + row_tail(*state, p as int));
}

/// The scoreboard: each player's name, score, unplaced squares and status.
pub fn render_scoreboard<const B: usize, const P: usize>(state: &BlokusState<B, P>, use_color: bool) -> (s: String)
    requires
        P <= 4,
    ensures
        s@ == scoreboard_text(*state, use_color),
{
    let mut out: Vec<char> = Vec::new();
    extend_str(&mut out, "┌─────────────────────────────────────────────────────────────┐\n");
    extend_str(&mut out, "│                     BLOKUS SCOREBOARD                       │\n");
    extend_str(&mut out, "├────────┬────────────┬──────────┬──────────┬─────────────────┤\n");
    extend_str(&mut out, "│ Player │ Name       │ Score    │ Unplaced │ Status          │\n");
    extend_str(&mut out, "├────────┼────────────┼──────────┼──────────┼─────────────────┤\n");
    let ghost h = out@;
    assert(h == scoreboard_head());
    let mut p: usize = 0;
    while p < P
        invariant
            p <= P <= 4,
            out@ == h + score_rows(*state, p as int, use_color),
        decreases P - p,
    {
        push_score_row(&mut out, state, p, use_color);
        p = p + 1;
    }
    extend_str(&mut out, "└────────┴────────────┴──────────┴──────────┴─────────────────┘\n");
    string_of(out.as_slice())
}

/// Unplaced pieces among the first `k` in `mask`.
pub open spec fn inventory_count(mask: u32, k: int) -> int
    decreases k,
{
    if k <= 0 {
        0
    } else {
        inventory_count(mask, k - 1) + if piece_in_mask(mask, (k - 1) as u8) {
            1int
        } else {
            0int
        }
    }
}

/// One inventory entry: number, name and size of piece `i`.
pub open spec fn inventory_entry(i: int) -> Seq<char> {
    "  ["@ + pad_left(decimal(i as nat), 2) + "] "@ + pad_right(piece_name_text(i), 14) + " ("@ + decimal(
        spec_piece_size(i) as nat,
    ) + " sq) "@
}

/// The entries of the unplaced pieces among the first `k`, three to a line.
pub open spec fn inventory_entries(mask: u32, k: int) -> Seq<char>
    decreases k,
{
    if k <= 0 {
        Seq::empty()
    } else if piece_in_mask(mask, (k - 1) as u8) {
        inventory_entries(mask, k - 1) + inventory_entry(k - 1) + if inventory_count(mask, k) % 3 == 0 {
            "\n"@
        } else {
            Seq::empty()
        }
    } else {
        inventory_entries(mask, k - 1)
    }
}

/// The inventory of `player`: a title, then its unplaced pieces.
pub open spec fn inventory_text<const B: usize, const P: usize>(st: BlokusState<B, P>, player: int) -> Seq<char> {
    let mask = st.remaining_pieces@[player];
    "Inventory for Player "@ + decimal(player as nat) + " ("@ + player_name(player) + "):\n"@ + inventory_entries(
        mask,
        21,
    ) + if inventory_count(mask, 21) % 3 != 0 {
        "\n"@
    } else {
        Seq::empty()
    }
}

fn push_inventory_entry(out: &mut Vec<char>, i: usize)
    requires
        i < 21,
    ensures
        final(out)@ == old(out)@ + inventory_entry(i as int),
{
    extend_str(out, "  [");
    push_padded_left(out, decimal_chars(i).as_slice(), 2);
    extend_str(out, "] ");
    let name = crate::text::chars_of(piece_name(i));
    push_padded_right(out, name.as_slice(), 14);
    extend_str(out, " (");
    extend_chars(out, decimal_chars(piece_size(i as u8) as usize).as_slice());
    extend_str(out, " sq) ");
}

/// The unplaced pieces of `player`, three to a line, each with its number,
/// name and size.
pub fn render_inventory<const B: usize, const P: usize>(state: &BlokusState<B, P>, player: usize) -> (s: String)
    requires
        player < P,
        player < 4,
    ensures
        s@ == inventory_text(*state, player as int),
{
    let mut out: Vec<char> = Vec::new();
    extend_str(&mut out, "Inventory for Player ");
    extend_chars(&mut out, decimal_chars(player).as_slice());
    extend_str(&mut out, " (");
    push_player_name(&mut out, player);
    extend_str(&mut out, "):\n");
    let ghost h = out@;
    let mask = state.remaining_pieces[player];
    let mut count: usize = 0;
    let mut i: usize = 0;
    while i < 21
        invariant
            i <= 21,
            mask == state.remaining_pieces@[player as int],
            count == inventory_count(mask, i as int),
            count <= i,
            out@ == h + inventory_entries(mask, i as int),
        decreases 21 - i,
    {
        if (mask & (1u32 << (i as u8))) != 0 {
            assert(piece_in_mask(mask, i as u8));
            push_inventory_entry(&mut out, i);
            count += 1;
            if count % 3 == 0 {
                extend_str(&mut out, "\n");
            }
        } else {
            assert(!piece_in_mask(mask, i as u8));
        }
        i += 1;
    }
    if count % 3 != 0 {
        extend_str(&mut out, "\n");
    }
    string_of(out.as_slice())
}

} // verus!
