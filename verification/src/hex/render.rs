//! Text rendering of Hex boards.
use crate::hex::game::{HexPlayer, HexState};
use crate::text::{chars_of, decimal, decimal_chars, extend_chars, extend_str, string_of};
use vstd::prelude::*;

verus! {

/// `code` when colours are on, else nothing.
pub open spec fn tint(use_color: bool, code: Seq<char>) -> Seq<char> {
    if use_color { code } else { Seq::empty() }
}

/// `s` written `k` times.
pub open spec fn repeat(s: Seq<char>, k: nat) -> Seq<char>
    decreases k,
{
    if k == 0 {
        Seq::empty()
    } else {
        repeat(s, (k - 1) as nat) + s
    }
}

/// The column letters of the first `k` columns, each after a space.
pub open spec fn column_letters(k: nat) -> Seq<char>
    decreases k,
{
    if k == 0 {
        Seq::empty()
    } else {
        column_letters((k - 1) as nat) + seq![' ', (65 + k - 1) as char]
    }
}

/// `d` right-aligned in two characters.
pub open spec fn pad2(d: Seq<char>) -> Seq<char> {
    if d.len() >= 2 { d } else { seq![' '] + d }
}

/// One cell: a space, then `X` for Black, `O` for White or a dot, coloured.
pub open spec fn cell_text(cell: Option<HexPlayer>, use_color: bool) -> Seq<char> {
    let reset = tint(use_color, "\x1b[0m"@);
    seq![' '] + match cell {
        Some(HexPlayer::Black) => tint(use_color, "\x1b[1;34m"@) + "X"@ + reset,
        Some(HexPlayer::White) => tint(use_color, "\x1b[1;31m"@) + "O"@ + reset,
        None => tint(use_color, "\x1b[90m"@) + "·"@ + reset,
    }
}

/// The first `k` cells of row `r`.
pub open spec fn row_cells(board: Seq<Option<HexPlayer>>, n: int, r: int, k: nat, use_color: bool) -> Seq<char>
    decreases k,
{
    if k == 0 {
        Seq::empty()
    } else {
        row_cells(board, n, r, (k - 1) as nat, use_color) + cell_text(board[r * n + k - 1], use_color)
    }
}

/// The start of row `r`: the shift, the row number, White's left edge.
pub open spec fn row_left(r: int, use_color: bool) -> Seq<char> {
    repeat(" "@, r as nat) + pad2(decimal((r + 1) as nat)) + " "@ + tint(use_color, "\x1b[1;31m"@) + "║"@ + tint(
        use_color,
        "\x1b[0m"@,
    )
}

/// The end of row `r`: White's right edge and the row number.
pub open spec fn row_right(r: int, use_color: bool) -> Seq<char> {
    " "@ + tint(use_color, "\x1b[1;31m"@) + "║"@ + tint(use_color, "\x1b[0m"@) + " "@ + decimal((r + 1) as nat)
        + "\n"@
}

/// Row `r`: shifted right by `r`, numbered on both sides, between White's edges.
pub open spec fn row_text(board: Seq<Option<HexPlayer>>, n: int, r: int, use_color: bool) -> Seq<char> {
    row_left(r, use_color) + row_cells(board, n, r, n as nat, use_color) + row_right(r, use_color)
}

/// The first `k` rows.
pub open spec fn rows_text(board: Seq<Option<HexPlayer>>, n: int, k: nat, use_color: bool) -> Seq<char>
    decreases k,
{
    if k == 0 {
        Seq::empty()
    } else {
        rows_text(board, n, (k - 1) as nat, use_color) + row_text(board, n, k - 1, use_color)
    }
}

/// The whole picture: Black's goal, column letters, Black's top edge, the
/// rows as a rhombus, Black's bottom edge, the letters again, White's goal.
pub open spec fn board_text(board: Seq<Option<HexPlayer>>, n: int, use_color: bool) -> Seq<char> {
    let black = tint(use_color, "\x1b[1;34m"@);
    let white = tint(use_color, "\x1b[1;31m"@);
    let reset = tint(use_color, "\x1b[0m"@);
    "   "@ + black + "▼ Top: Black ("@ + black + "X"@ + reset + ") connects Top ↔ Bottom ▼"@ + reset + "\n"@
        + "     "@ + column_letters(n as nat) + "\n"@ + "    "@ + black + "╔"@ + repeat("══"@, n as nat) + "╗"@
        + reset + "\n"@ + rows_text(board, n, n as nat, use_color) + repeat(" "@, n as nat) + "    "@ + black
        + "╚"@ + repeat("══"@, n as nat) + "╝"@ + reset + "\n"@ + repeat(" "@, n as nat) + "     "@
        + column_letters(n as nat) + "\n   "@ + white + "◄ Left: White ("@ + white + "O"@ + reset
        + ") connects Left ↔ Right ►"@ + reset + "\n"@
}

fn push_tint(out: &mut Vec<char>, use_color: bool, code: &str)
    ensures
        final(out)@ == old(out)@ + tint(use_color, code@),
{
    if use_color {
        extend_str(out, code);
    } else {
        assert(old(out)@ + tint(use_color, code@) =~= old(out)@);
    }
}

fn push_repeat(out: &mut Vec<char>, s: &str, k: usize)
    ensures
        final(out)@ == old(out)@ + repeat(s@, k as nat),
{
    let ghost o0 = out@;
    let mut i: usize = 0;
    while i < k
        invariant
            i <= k,
            out@ == o0 + repeat(s@, i as nat),
        decreases k - i,
    {
        extend_str(out, s);
        proof {
            assert(o0 + repeat(s@, i as nat) + s@ =~= o0 + repeat(s@, (i + 1) as nat));
        }
        i = i + 1;
    }
    proof {
        if k == 0 {
            assert(o0 + repeat(s@, 0) =~= o0);
        }
    }
}

fn push_letters(out: &mut Vec<char>, n: usize)
    requires
        n <= 128,
    ensures
        final(out)@ == old(out)@ + column_letters(n as nat),
{
    let ghost o0 = out@;
    let mut c: usize = 0;
    while c < n
        invariant
            c <= n <= 128,
            out@ == o0 + column_letters(c as nat),
        decreases n - c,
    {
        out.push(' ');
        out.push(((65 + c) as u8) as char);
        proof {
            assert(out@ =~= o0 + column_letters((c + 1) as nat));
        }
        c = c + 1;
    }
}

fn push_cell(out: &mut Vec<char>, cell: Option<HexPlayer>, use_color: bool)
    ensures
        final(out)@ == old(out)@ + cell_text(cell, use_color),
{
    let ghost o0 = out@;
    out.push(' ');
    match cell {
        Some(HexPlayer::Black) => {
            push_tint(out, use_color, "\x1b[1;34m");
            extend_str(out, "X");
        },
        Some(HexPlayer::White) => {
            push_tint(out, use_color, "\x1b[1;31m");
            extend_str(out, "O");
        },
        None => {
            push_tint(out, use_color, "\x1b[90m");
            extend_str(out, "·");
        },
    }
    push_tint(out, use_color, "\x1b[0m");
    proof {
        assert(out@ =~= o0 + cell_text(cell, use_color));
    }
}

fn push_row_cells<const N: usize>(out: &mut Vec<char>, state: &HexState<N>, r: usize, use_color: bool)
    requires
        state.wf(),
        r < N,
    ensures
        final(out)@ == old(out)@ + row_cells(state.board@, N as int, r as int, N as nat, use_color),
{
    let ghost o2 = out@;
    let mut c: usize = 0;
    while c < N
        invariant
            state.wf(),
            r < N,
            c <= N,
            out@ == o2 + row_cells(state.board@, N as int, r as int, c as nat, use_color),
        decreases N - c,
    {
        proof {
            crate::hex::game::lemma_cell(N as int, r as int, c as int);
        }
        let i = r * N + c;
        push_cell(out, state.board[i], use_color);
        proof {
            assert((r * N + (c + 1) - 1) == i as int);
            assert(row_cells(state.board@, N as int, r as int, (c + 1) as nat, use_color) == row_cells(
                state.board@,
                N as int,
                r as int,
                c as nat,
                use_color,
            ) + cell_text(state.board@[i as int], use_color));
            assert(out@ =~= o2 + row_cells(state.board@, N as int, r as int, (c + 1) as nat, use_color));
        }
        c = c + 1;
    }
}

fn push_row_left(out: &mut Vec<char>, r: usize, use_color: bool)
    requires
        r < usize::MAX,
    ensures
        final(out)@ == old(out)@ + row_left(r as int, use_color),
{
    let ghost o0 = out@;
    push_repeat(out, " ", r);
    let ghost o1 = out@;
    let num = decimal_chars(r + 1);
    if num.len() < 2 {
        out.push(' ');
    }
    extend_chars(out, num.as_slice());
    proof {
        assert(out@ =~= o1 + pad2(decimal((r + 1) as nat)));
    }
    extend_str(out, " ");
    push_tint(out, use_color, "\x1b[1;31m");
    extend_str(out, "║");
    push_tint(out, use_color, "\x1b[0m");
    proof {
        assert(out@ =~= o0 + row_left(r as int, use_color));
    }
}

fn push_row_right(out: &mut Vec<char>, r: usize, use_color: bool)
    requires
        r < usize::MAX,
    ensures
        final(out)@ == old(out)@ + row_right(r as int, use_color),
{
    let ghost o0 = out@;
    extend_str(out, " ");
    push_tint(out, use_color, "\x1b[1;31m");
    extend_str(out, "║");
    push_tint(out, use_color, "\x1b[0m");
    extend_str(out, " ");
    let num = decimal_chars(r + 1);
    extend_chars(out, num.as_slice());
    extend_str(out, "\n");
    proof {
        assert(out@ =~= o0 + row_right(r as int, use_color));
    }
}

fn push_row<const N: usize>(out: &mut Vec<char>, state: &HexState<N>, r: usize, use_color: bool)
    requires
        state.wf(),
        r < N,
    ensures
        final(out)@ == old(out)@ + row_text(state.board@, N as int, r as int, use_color),
{
    let ghost o0 = out@;
    push_row_left(out, r, use_color);
    let ghost o1 = out@;
    push_row_cells(out, state, r, use_color);
    let ghost o2 = out@;
    push_row_right(out, r, use_color);
    proof {
        assert(out@ =~= o0 + row_text(state.board@, N as int, r as int, use_color));
    }
}

/// The board with colours (see `render_board_styled`).
pub fn render_board<const N: usize>(state: &HexState<N>) -> (s: String)
    requires
        state.wf(),
    ensures
        s@ == board_text(state.board@, N as int, true),
{
    render_board_styled(state, true)
}

/// The board as text, with or without terminal colours (see `board_text`).
pub fn render_board_styled<const N: usize>(state: &HexState<N>, use_color: bool) -> (s: String)
    requires
        state.wf(),
    ensures
        s@ == board_text(state.board@, N as int, use_color),
{
    let mut out: Vec<char> = Vec::new();
    extend_str(&mut out, "   ");
    push_tint(&mut out, use_color, "\x1b[1;34m");
    extend_str(&mut out, "▼ Top: Black (");
    push_tint(&mut out, use_color, "\x1b[1;34m");
    extend_str(&mut out, "X");
    push_tint(&mut out, use_color, "\x1b[0m");
    extend_str(&mut out, ") connects Top ↔ Bottom ▼");
    push_tint(&mut out, use_color, "\x1b[0m");
    extend_str(&mut out, "\n");
    extend_str(&mut out, "     ");
    push_letters(&mut out, N);
    extend_str(&mut out, "\n");
    extend_str(&mut out, "    ");
    push_tint(&mut out, use_color, "\x1b[1;34m");
    extend_str(&mut out, "╔");
    push_repeat(&mut out, "══", N);
    extend_str(&mut out, "╗");
    push_tint(&mut out, use_color, "\x1b[0m");
    extend_str(&mut out, "\n");
    let ghost o1 = out@;
    let mut r: usize = 0;
    while r < N
        invariant
            state.wf(),
            r <= N,
            out@ == o1 + rows_text(state.board@, N as int, r as nat, use_color),
        decreases N - r,
    {
        push_row(&mut out, state, r, use_color);
        r = r + 1;
    }
    push_repeat(&mut out, " ", N);
    extend_str(&mut out, "    ");
    push_tint(&mut out, use_color, "\x1b[1;34m");
    extend_str(&mut out, "╚");
    push_repeat(&mut out, "══", N);
    extend_str(&mut out, "╝");
    push_tint(&mut out, use_color, "\x1b[0m");
    extend_str(&mut out, "\n");
    push_repeat(&mut out, " ", N);
    extend_str(&mut out, "     ");
    push_letters(&mut out, N);
    extend_str(&mut out, "\n   ");
    push_tint(&mut out, use_color, "\x1b[1;31m");
    extend_str(&mut out, "◄ Left: White (");
    push_tint(&mut out, use_color, "\x1b[1;31m");
    extend_str(&mut out, "O");
    push_tint(&mut out, use_color, "\x1b[0m");
    extend_str(&mut out, ") connects Left ↔ Right ►");
    push_tint(&mut out, use_color, "\x1b[0m");
    extend_str(&mut out, "\n");
    proof {
        assert(out@ =~= board_text(state.board@, N as int, use_color));
    }
    string_of(out.as_slice())
}

} // verus!
