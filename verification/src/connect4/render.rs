//! Connect 4 boards as framed text grids.
use crate::connect4::game::{Connect4State, Player};
use crate::text::{decimal, decimal_chars, extend_chars, extend_str, string_of};
use vstd::prelude::*;

verus! {

/// A horizontal bar of the frame.
pub open spec fn h_bar(use_color: bool) -> Seq<char> {
    if use_color {
        "\x1b[34m───\x1b[0m"@
    } else {
        "───"@
    }
}

/// A vertical bar of the frame.
pub open spec fn v_bar(use_color: bool) -> Seq<char> {
    if use_color {
        "\x1b[34m│\x1b[0m"@
    } else {
        "│"@
    }
}

/// A checker, or an empty cell.
pub open spec fn cell_token(cell: Option<Player>, use_color: bool) -> Seq<char> {
    match cell {
        Some(Player::Red) => if use_color {
            "\x1b[1;31m X \x1b[0m"@
        } else {
            " X "@
        },
        Some(Player::Yellow) => if use_color {
            "\x1b[1;33m O \x1b[0m"@
        } else {
            " O "@
        },
        None => "   "@,
    }
}

/// The column numbers of the first `k` columns.
pub open spec fn column_numbers(k: int) -> Seq<char>
    decreases k,
{
    if k <= 0 {
        Seq::empty()
    } else {
        column_numbers(k - 1) + "  "@ + decimal((k - 1) as nat) + " "@
    }
}

/// The first `k` bars of a rule across `cols` columns, `mid` between them.
pub open spec fn rule_bars(mid: Seq<char>, use_color: bool, cols: int, k: int) -> Seq<char>
    decreases k,
{
    if k <= 0 {
        Seq::empty()
    } else {
        rule_bars(mid, use_color, cols, k - 1) + h_bar(use_color) + if k < cols {
            mid
        } else {
            Seq::empty()
        }
    }
}

/// A full rule line: `left`, the bars, `right`.
pub open spec fn rule_line(left: Seq<char>, mid: Seq<char>, right: Seq<char>, use_color: bool, cols: int) -> Seq<char> {
    "  "@ + left + rule_bars(mid, use_color, cols, cols) + right + "\n"@
}

/// The first `k` cells of row `r`, each after a bar.
pub open spec fn row_cells<const R: usize, const C: usize>(st: Connect4State<R, C>, r: int, use_color: bool, k: int) -> Seq<char>
    decreases k,
{
    if k <= 0 {
        Seq::empty()
    } else {
        row_cells(st, r, use_color, k - 1) + v_bar(use_color) + cell_token(st.board@[r]@[k - 1], use_color)
    }
}

/// The divider under row `r`, none under the last.
pub open spec fn divider(use_color: bool, r: int, rows: int, cols: int) -> Seq<char> {
    if r + 1 < rows {
        rule_line(
            if use_color { "\x1b[34m├\x1b[0m"@ } else { "├"@ },
            if use_color { "\x1b[34m┼\x1b[0m"@ } else { "┼"@ },
            if use_color { "\x1b[34m┤\x1b[0m"@ } else { "┤"@ },
            use_color,
            cols,
        )
    } else {
        Seq::empty()
    }
}

/// Row `r` of the grid and the divider under it.
pub open spec fn grid_row<const R: usize, const C: usize>(st: Connect4State<R, C>, use_color: bool, r: int) -> Seq<char> {
    "  "@ + row_cells(st, r, use_color, C as int) + v_bar(use_color) + "\n"@ + divider(use_color, r, R as int, C as int)
}

/// The first `k` rows, with a divider under each but the last row.
pub open spec fn grid_rows<const R: usize, const C: usize>(st: Connect4State<R, C>, use_color: bool, k: int) -> Seq<char>
    decreases k,
{
    if k <= 0 {
        Seq::empty()
    } else {
        grid_rows(st, use_color, k - 1) + grid_row(st, use_color, k - 1)
    }
}

/// The whole picture: column numbers, the framed grid, column numbers.
pub open spec fn board_text<const R: usize, const C: usize>(st: Connect4State<R, C>, use_color: bool) -> Seq<char> {
    "  "@ + column_numbers(C as int) + "\n"@ + rule_line(
        if use_color { "\x1b[34m┌\x1b[0m"@ } else { "┌"@ },
        if use_color { "\x1b[34m┬\x1b[0m"@ } else { "┬"@ },
        if use_color { "\x1b[34m┐\x1b[0m"@ } else { "┐"@ },
        use_color,
        C as int,
    ) + grid_rows(st, use_color, R as int) + rule_line(
        if use_color { "\x1b[34m└\x1b[0m"@ } else { "└"@ },
        if use_color { "\x1b[34m┴\x1b[0m"@ } else { "┴"@ },
        if use_color { "\x1b[34m┘\x1b[0m"@ } else { "┘"@ },
        use_color,
        C as int,
    ) + "  "@ + column_numbers(C as int) + "\n"@
}

fn push_numbers<const C: usize>(out: &mut Vec<char>)
    ensures
        final(out)@ == old(out)@ + column_numbers(C as int),
{
    let ghost start = out@;
    let mut col: usize = 0;
    while col < C
        invariant
            col <= C,
            out@ == start + column_numbers(col as int),
        decreases C - col,
    {
        extend_str(out, "  ");
        extend_chars(out, decimal_chars(col).as_slice());
        extend_str(out, " ");
        col += 1;
    }
}

fn push_rule<const C: usize>(out: &mut Vec<char>, left: &str, mid: &str, right: &str, use_color: bool)
    ensures
        final(out)@ == old(out)@ + rule_line(left@, mid@, right@, use_color, C as int),
{
    let h_bar = if use_color { "\x1b[34m───\x1b[0m" } else { "───" };
    let ghost start = out@;
    extend_str(out, "  ");
    extend_str(out, left);
    let ghost bars = out@;
    let mut col: usize = 0;
    while col < C
        invariant
            col <= C,
            h_bar@ == crate::connect4::render::h_bar(use_color),
            out@ == bars + rule_bars(mid@, use_color, C as int, col as int),
        decreases C - col,
    {
        extend_str(out, h_bar);
        if col + 1 < C {
            extend_str(out, mid);
        }
        col += 1;
    }
    extend_str(out, right);
    extend_str(out, "\n");
}

fn push_row<const R: usize, const C: usize>(out: &mut Vec<char>, state: &Connect4State<R, C>, r: usize, use_color: bool)
    requires
        r < R,
    ensures
        final(out)@ == old(out)@ + "  "@ + row_cells(*state, r as int, use_color, C as int) + v_bar(use_color)
            + "\n"@,
{
    let v_bar = if use_color { "\x1b[34m│\x1b[0m" } else { "│" };
    let ghost start = out@;
    extend_str(out, "  ");
    let ghost cells = out@;
    let mut col: usize = 0;
    while col < C
        invariant
            r < R,
            col <= C,
            v_bar@ == crate::connect4::render::v_bar(use_color),
            out@ == cells + row_cells(*state, r as int, use_color, col as int),
        decreases C - col,
    {
        extend_str(out, v_bar);
        let cell = match state.board[r][col] {
            Some(Player::Red) => if use_color {
                "\x1b[1;31m X \x1b[0m"
            } else {
                " X "
            },
            Some(Player::Yellow) => if use_color {
                "\x1b[1;33m O \x1b[0m"
            } else {
                " O "
            },
            None => "   ",
        };
        extend_str(out, cell);
        col += 1;
    }
    extend_str(out, v_bar);
    extend_str(out, "\n");
}

fn push_grid_row<const R: usize, const C: usize>(out: &mut Vec<char>, state: &Connect4State<R, C>, row: usize, use_color: bool)
    requires
        row < R,
    ensures
        final(out)@ == old(out)@ + grid_row(*state, use_color, row as int),
{
    let ghost start = out@;
    push_row(out, state, row, use_color);
    let ghost mid = out@;
    if row + 1 < R {
        if use_color {
            push_rule::<C>(out, "\x1b[34m├\x1b[0m", "\x1b[34m┼\x1b[0m", "\x1b[34m┤\x1b[0m", use_color);
        } else {
            push_rule::<C>(out, "├", "┼", "┤", use_color);
        }
    }
    assert(out@ == mid + divider(use_color, row as int, R as int, C as int));
}

/// The board as a framed grid with column numbers above and below;
/// `use_color` paints the frame blue and the checkers red and yellow.
pub fn render_board_styled<const R: usize, const C: usize>(state: &Connect4State<R, C>, use_color: bool) -> (s: String)
    ensures
        s@ == board_text(*state, use_color),
{
    let mut out: Vec<char> = Vec::new();
    extend_str(&mut out, "  ");
    push_numbers::<C>(&mut out);
    extend_str(&mut out, "\n");
    if use_color {
        push_rule::<C>(&mut out, "\x1b[34m┌\x1b[0m", "\x1b[34m┬\x1b[0m", "\x1b[34m┐\x1b[0m", use_color);
    } else {
        push_rule::<C>(&mut out, "┌", "┬", "┐", use_color);
    }
    let ghost grid = out@;
    let mut row: usize = 0;
    while row < R
        invariant
            row <= R,
            out@ == grid + grid_rows(*state, use_color, row as int),
        decreases R - row,
    {
        push_grid_row(&mut out, state, row, use_color);
        row += 1;
    }
    if use_color {
        push_rule::<C>(&mut out, "\x1b[34m└\x1b[0m", "\x1b[34m┴\x1b[0m", "\x1b[34m┘\x1b[0m", use_color);
    } else {
        push_rule::<C>(&mut out, "└", "┴", "┘", use_color);
    }
    extend_str(&mut out, "  ");
    push_numbers::<C>(&mut out);
    extend_str(&mut out, "\n");
    string_of(out.as_slice())
}

/// The board without colours.
pub fn render_board<const R: usize, const C: usize>(state: &Connect4State<R, C>) -> (s: String)
    ensures
        s@ == board_text(*state, false),
{
    render_board_styled(state, false)
}

} // verus!
