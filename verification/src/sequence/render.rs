//! Text pictures of Sequence cards, moves, boards and positions.
use crate::sequence::board::{
    board_layout, coord_to_index, is_corner, is_one_eyed_jack, is_two_eyed_jack, layout, on_board_twice, spec_one_eyed,
    spec_two_eyed, standard_deck, standard_deck_pairs, BoardCell, Card,
};
use crate::sequence::game::{known_cards, spec_dead, SequenceAction, SequenceState};
use crate::text::{
    chars_of, decimal, decimal_chars, extend_chars, extend_str, pad_left, pad_right, push_padded_left,
    push_padded_right, string_of,
};
use vstd::prelude::*;

verus! {

/// The symbol cardpack shows for a French suit index.
pub open spec fn suit_symbol(s: char) -> char {
    if s == 'S' {
        '♠'
    } else if s == 'H' {
        '♥'
    } else if s == 'D' {
        '♦'
    } else {
        '♣'
    }
}

/// How a card is shown: cardpack prints a deck card as its rank symbol (the
/// rank's index character) and its suit symbol; a value outside the deck,
/// which no game deals, shows its two index characters.
pub open spec fn card_shown(c: Card) -> Seq<char> {
    if standard_deck().contains(c) {
        seq![c.rank, suit_symbol(c.suit)]
    } else {
        seq![c.rank, c.suit]
    }
}

/// cardpack's `Display` of the `i`-th card of `Standard52::DECK`, which
/// writes the rank pip's symbol and then the suit pip's symbol. As the pips
/// are written in cardpack's source, a French rank's symbol is its index
/// character and the suits show as ♠ ♥ ♦ ♣.
#[verifier::external_body]
fn deck_card_text(i: usize) -> (s: String)
    requires
        i < 52,
    ensures
        s@ == seq![standard_deck()[i as int].rank, suit_symbol(standard_deck()[i as int].suit)],
{
    format!("{}", cardpack::prelude::Standard52::DECK[i])
}

/// Where `card` stands in the deck, if it is there.
fn deck_position(card: Card) -> (pos: Option<usize>)
    ensures
        match pos {
            Some(i) => i < 52 && standard_deck()[i as int] == card,
            None => !standard_deck().contains(card),
        },
{
    let pairs = standard_deck_pairs();
    let mut i: usize = 0;
    while i < 52
        invariant
            i <= 52,
            pairs@.len() == 52,
            standard_deck().len() == 52,
            forall|k: int| 0 <= k < 52 ==> #[trigger] pairs@[k] == (standard_deck()[k].rank, standard_deck()[k].suit),
            forall|k: int| 0 <= k < i ==> #[trigger] standard_deck()[k] != card,
        decreases 52 - i,
    {
        let (r, s) = pairs[i];
        if r == card.rank && s == card.suit {
            return Some(i);
        }
        i = i + 1;
    }
    None
}

/// The text of a card, as the game shows it (`A♠`, `T♥`, ...).
pub fn format_card(card: Card) -> (s: String)
    ensures
        s@ == card_shown(card),
{
    match deck_position(card) {
        Some(i) => deck_card_text(i),
        None => {
            let mut v: Vec<char> = Vec::new();
            v.push(card.rank);
            v.push(card.suit);
            string_of(v.as_slice())
        },
    }
}

/// The chip of `team` on a cell, locked or not, with or without colour.
pub open spec fn token_text(team: u8, locked: bool, use_color: bool) -> Seq<char> {
    if team == 0 {
        if use_color {
            if locked {
                "\x1b[1;37;44m*B*\x1b[0m "@
            } else {
                "\x1b[1;34m ●B\x1b[0m "@
            }
        } else if locked {
            "[B] "@
        } else {
            " B  "@
        }
    } else if team == 1 {
        if use_color {
            if locked {
                "\x1b[1;37;42m*G*\x1b[0m "@
            } else {
                "\x1b[1;32m ●G\x1b[0m "@
            }
        } else if locked {
            "[G] "@
        } else {
            " G  "@
        }
    } else if team == 2 {
        if use_color {
            if locked {
                "\x1b[1;37;41m*R*\x1b[0m "@
            } else {
                "\x1b[1;31m ●R\x1b[0m "@
            }
        } else if locked {
            "[R] "@
        } else {
            " R  "@
        }
    } else {
        " ?  "@
    }
}

/// What the layout shows at flat index `idx`.
pub open spec fn layout_text(idx: int) -> Seq<char> {
    match layout()[idx] {
        BoardCell::Card(c) => card_shown(c),
        BoardCell::Corner => " ★ "@,
    }
}

/// The text of cell `(r, c)`: a star on a corner, else the chip on it, else
/// the card printed there.
pub open spec fn cell_text(r: int, c: int, token: Option<u8>, locked: bool, use_color: bool) -> Seq<char> {
    if (r == 0 || r == 9) && (c == 0 || c == 9) {
        if use_color {
            "\x1b[1;33m ★  \x1b[0m"@
        } else {
            " ★  "@
        }
    } else {
        match token {
            Some(t) => token_text(t, locked, use_color),
            None => if use_color {
                "\x1b[90m"@ + layout_text(r * 10 + c) + "\x1b[0m "@
            } else {
                layout_text(r * 10 + c) + " "@
            },
        }
    }
}

fn push_token(out: &mut Vec<char>, team: u8, locked: bool, use_color: bool)
    ensures
        final(out)@ == old(out)@ + token_text(team, locked, use_color),
{
    let s = match team {
        0 => if use_color {
            if locked {
                "\x1b[1;37;44m*B*\x1b[0m "
            } else {
                "\x1b[1;34m ●B\x1b[0m "
            }
        } else if locked {
            "[B] "
        } else {
            " B  "
        },
        1 => if use_color {
            if locked {
                "\x1b[1;37;42m*G*\x1b[0m "
            } else {
                "\x1b[1;32m ●G\x1b[0m "
            }
        } else if locked {
            "[G] "
        } else {
            " G  "
        },
        2 => if use_color {
            if locked {
                "\x1b[1;37;41m*R*\x1b[0m "
            } else {
                "\x1b[1;31m ●R\x1b[0m "
            }
        } else if locked {
            "[R] "
        } else {
            " R  "
        },
        _ => " ?  ",
    };
    extend_str(out, s);
}

/// Appends the text of cell `(r, c)`.
fn push_cell(out: &mut Vec<char>, r: u8, c: u8, token: Option<u8>, locked: bool, use_color: bool)
    requires
        r * 10 + c < 100,
    ensures
        final(out)@ == old(out)@ + cell_text(r as int, c as int, token, locked, use_color),
{
    if is_corner(r, c) {
        if use_color {
            extend_str(out, "\x1b[1;33m ★  \x1b[0m");
        } else {
            extend_str(out, " ★  ");
        }
        return;
    }
    let idx = coord_to_index(r, c);
    match token {
        Some(team) => push_token(out, team, locked, use_color),
        None => {
            let cells = board_layout();
            let shown: Vec<char> = match cells[idx] {
                BoardCell::Card(card) => {
                    let s = format_card(card);
                    crate::text::chars_of(s.as_str())
                },
                BoardCell::Corner => crate::text::chars_of(" ★ "),
            };
            assert(shown@ == layout_text(r * 10 + c));
            if use_color {
                extend_str(out, "\x1b[90m");
                extend_chars(out, shown.as_slice());
                extend_str(out, "\x1b[0m ");
            } else {
                extend_chars(out, shown.as_slice());
                extend_str(out, " ");
            }
        },
    }
}

/// The text of board cell `(r, c)` holding `token`: a star on a corner, else
/// the chip (bracketed when locked), else the card printed there.
pub fn format_cell(r: u8, c: u8, token: Option<u8>, locked: bool, use_color: bool) -> (s: String)
    requires
        r * 10 + c < 100,
    ensures
        s@ == cell_text(r as int, c as int, token, locked, use_color),
{
    let mut out: Vec<char> = Vec::new();
    push_cell(&mut out, r, c, token, locked, use_color);
    string_of(out.as_slice())
}


/// The column header: a margin, then `  c ` for each column `c < k`.
pub open spec fn header_cols(k: int) -> Seq<char>
    decreases k,
{
    if k <= 0 {
        Seq::empty()
    } else {
        header_cols(k - 1) + "  "@ + decimal((k - 1) as nat) + " "@
    }
}

/// The first `k` segments of a rule across the ten columns: four dashes
/// each, with `mid` between neighbouring columns.
pub open spec fn rule_segments(mid: Seq<char>, k: int) -> Seq<char>
    decreases k,
{
    if k <= 0 {
        Seq::empty()
    } else {
        rule_segments(mid, k - 1) + "────"@ + if k < 10 {
            mid
        } else {
            Seq::empty()
        }
    }
}

/// The first `k` cells of board row `r`, with `│` between neighbours.
pub open spec fn row_cells(board: Seq<Option<u8>>, locked: Seq<bool>, use_color: bool, r: int, k: int) -> Seq<char>
    decreases k,
{
    if k <= 0 {
        Seq::empty()
    } else {
        row_cells(board, locked, use_color, r, k - 1) + cell_text(
            r,
            k - 1,
            board[r * 10 + k - 1],
            locked[r * 10 + k - 1],
            use_color,
        ) + if k < 10 {
            "│"@
        } else {
            Seq::empty()
        }
    }
}

/// Board row `r` with its number, and the rule under it but for the last row.
pub open spec fn board_line(board: Seq<Option<u8>>, locked: Seq<bool>, use_color: bool, r: int) -> Seq<char> {
    pad_left(decimal(r as nat), 2) + " │"@ + row_cells(board, locked, use_color, r, 10) + "│\n"@ + if r + 1 < 10 {
        "   ├"@ + rule_segments("┼"@, 10) + "┤\n"@
    } else {
        Seq::empty()
    }
}

/// The first `k` board rows.
pub open spec fn board_lines(board: Seq<Option<u8>>, locked: Seq<bool>, use_color: bool, k: int) -> Seq<char>
    decreases k,
{
    if k <= 0 {
        Seq::empty()
    } else {
        board_lines(board, locked, use_color, k - 1) + board_line(board, locked, use_color, k - 1)
    }
}

/// The whole board picture: column numbers, a frame, and each row of cells.
pub open spec fn board_text(board: Seq<Option<u8>>, locked: Seq<bool>, use_color: bool) -> Seq<char> {
    "    "@ + header_cols(10) + "\n"@ + "   ┌"@ + rule_segments("┬"@, 10) + "┐\n"@ + board_lines(
        board,
        locked,
        use_color,
        10,
    ) + "   └"@ + rule_segments("┴"@, 10) + "┘\n"@
}

/// Appends a rule's ten segments.
fn push_rule(out: &mut Vec<char>, mid: &str)
    ensures
        final(out)@ == old(out)@ + rule_segments(mid@, 10),
{
    let ghost start = out@;
    let mut c: usize = 0;
    while c < 10
        invariant
            c <= 10,
            out@ == start + rule_segments(mid@, c as int),
        decreases 10 - c,
    {
        extend_str(out, "────");
        if c + 1 < 10 {
            extend_str(out, mid);
        }
        c = c + 1;
    }
}

/// Appends the cells of board row `r`.
#[verifier::rlimit(30)]
fn push_row_cells(out: &mut Vec<char>, board: &[Option<u8>; 100], locked: &[bool; 100], use_color: bool, r: usize)
    requires
        r < 10,
    ensures
        final(out)@ == old(out)@ + row_cells(board@, locked@, use_color, r as int, 10),
{
    let ghost after_num = out@;
    let mut c: usize = 0;
    while c < 10
        invariant
            r < 10,
            c <= 10,
            out@ == after_num + row_cells(board@, locked@, use_color, r as int, c as int),
        decreases 10 - c,
    {
        let idx = coord_to_index(r as u8, c as u8);
        let ghost before = out@;
        push_cell(out, r as u8, c as u8, board[idx], locked[idx], use_color);
        assert(out@ == before + cell_text(r as int, c as int, board@[r * 10 + c], locked@[r * 10 + c], use_color));
        if c + 1 < 10 {
            extend_str(out, "│");
        }
        c = c + 1;
    }
}

/// Appends board row `r` and the rule under it.
fn push_board_line(out: &mut Vec<char>, board: &[Option<u8>; 100], locked: &[bool; 100], use_color: bool, r: usize)
    requires
        r < 10,
    ensures
        final(out)@ == old(out)@ + board_line(board@, locked@, use_color, r as int),
{
    let ghost start = out@;
    let num = decimal_chars(r);
    push_padded_left(out, num.as_slice(), 2);
    extend_str(out, " │");
    push_row_cells(out, board, locked, use_color, r);
    extend_str(out, "│\n");
    if r + 1 < 10 {
        extend_str(out, "   ├");
        push_rule(out, "┼");
        extend_str(out, "┤\n");
    }
}

/// Appends the column numbers.
fn push_header_cols(out: &mut Vec<char>)
    ensures
        final(out)@ == old(out)@ + header_cols(10),
{
    let ghost h0 = out@;
    let mut c: usize = 0;
    while c < 10
        invariant
            c <= 10,
            out@ == h0 + header_cols(c as int),
        decreases 10 - c,
    {
        extend_str(out, "  ");
        let d = decimal_chars(c);
        extend_chars(out, d.as_slice());
        extend_str(out, " ");
        c = c + 1;
    }
}

/// The board as a framed grid of cells, rows and columns numbered.
pub fn render_board(board: &[Option<u8>; 100], locked_chips: &[bool; 100], use_color: bool) -> (s: String)
    ensures
        s@ == board_text(board@, locked_chips@, use_color),
{
    let mut out: Vec<char> = Vec::new();
    extend_str(&mut out, "    ");
    push_header_cols(&mut out);
    extend_str(&mut out, "\n");
    extend_str(&mut out, "   ┌");
    push_rule(&mut out, "┬");
    extend_str(&mut out, "┐\n");
    let ghost b0 = out@;
    let mut r: usize = 0;
    while r < 10
        invariant
            r <= 10,
            out@ == b0 + board_lines(board@, locked_chips@, use_color, r as int),
        decreases 10 - r,
    {
        push_board_line(&mut out, board, locked_chips, use_color, r);
        r = r + 1;
    }
    extend_str(&mut out, "   └");
    push_rule(&mut out, "┴");
    extend_str(&mut out, "┘\n");
    string_of(out.as_slice())
}


/// The text of a move.
pub open spec fn action_text(a: SequenceAction) -> Seq<char> {
    match a {
        SequenceAction::PlayCard { card, pos } => if spec_two_eyed(card) {
            "Play Wild Jack "@ + card_shown(card) + " -> ("@ + decimal(pos.0 as nat) + ", "@ + decimal(
                pos.1 as nat,
            ) + ")"@
        } else {
            "Play "@ + card_shown(card) + " -> ("@ + decimal(pos.0 as nat) + ", "@ + decimal(pos.1 as nat) + ")"@
        },
        SequenceAction::RemoveToken { card, pos } => "Remove token at ("@ + decimal(pos.0 as nat) + ", "@
            + decimal(pos.1 as nat) + ") with "@ + card_shown(card),
        SequenceAction::DiscardDeadCard { card } => "Discard Dead Card "@ + card_shown(card)
            + " (draw replacement)"@,
    }
}

/// Appends the text of a card.
fn push_card(out: &mut Vec<char>, card: Card)
    ensures
        final(out)@ == old(out)@ + card_shown(card),
{
    let s = format_card(card);
    let v = chars_of(s.as_str());
    extend_chars(out, v.as_slice());
}

/// Appends `(row, col)` as `(r, c)` without the brackets' surroundings.
fn push_pos(out: &mut Vec<char>, pos: (u8, u8))
    ensures
        final(out)@ == old(out)@ + decimal(pos.0 as nat) + ", "@ + decimal(pos.1 as nat),
{
    let a = decimal_chars(pos.0 as usize);
    extend_chars(out, a.as_slice());
    extend_str(out, ", ");
    let b = decimal_chars(pos.1 as usize);
    extend_chars(out, b.as_slice());
}

/// A move as a sentence: which card goes where, or is discarded.
pub fn format_action(action: &SequenceAction) -> (s: String)
    ensures
        s@ == action_text(*action),
{
    let mut out: Vec<char> = Vec::new();
    match *action {
        SequenceAction::PlayCard { card, pos } => {
            if is_two_eyed_jack(card) {
                extend_str(&mut out, "Play Wild Jack ");
            } else {
                extend_str(&mut out, "Play ");
            }
            push_card(&mut out, card);
            extend_str(&mut out, " -> (");
            push_pos(&mut out, pos);
            extend_str(&mut out, ")");
        },
        SequenceAction::RemoveToken { card, pos } => {
            extend_str(&mut out, "Remove token at (");
            push_pos(&mut out, pos);
            extend_str(&mut out, ") with ");
            push_card(&mut out, card);
        },
        SequenceAction::DiscardDeadCard { card } => {
            extend_str(&mut out, "Discard Dead Card ");
            push_card(&mut out, card);
            extend_str(&mut out, " (draw replacement)");
        },
    }
    string_of(out.as_slice())
}

/// The name of team `t`.
pub open spec fn team_name(t: int) -> Seq<char> {
    if t == 0 {
        "Blue"@
    } else if t == 1 {
        "Green"@
    } else {
        "Red"@
    }
}

/// The one-letter symbol of team `t`.
pub open spec fn team_symbol(t: int) -> Seq<char> {
    if t == 0 {
        "B"@
    } else if t == 1 {
        "G"@
    } else {
        "R"@
    }
}

fn push_team_name(out: &mut Vec<char>, t: usize)
    requires
        t < 3,
    ensures
        final(out)@ == old(out)@ + team_name(t as int),
{
    if t == 0 {
        extend_str(out, "Blue");
    } else if t == 1 {
        extend_str(out, "Green");
    } else {
        extend_str(out, "Red");
    }
}

fn push_team_symbol(out: &mut Vec<char>, t: usize)
    requires
        t < 3,
    ensures
        final(out)@ == old(out)@ + team_symbol(t as int),
{
    if t == 0 {
        extend_str(out, "B");
    } else if t == 1 {
        extend_str(out, "G");
    } else {
        extend_str(out, "R");
    }
}

/// The turn line: move number, player, and team.
pub open spec fn turn_text(st: SequenceState) -> Seq<char> {
    let team = st.config.spec_team(st.current_player as int);
    "Turn "@ + decimal((st.total_moves + 1) as nat) + ": Player "@ + decimal(st.current_player as nat) + " (Team "@
        + decimal(team as nat) + " - "@ + team_name(team as int) + ")"@
}

/// The scores of the first `k` teams.
pub open spec fn team_scores(st: SequenceState, k: int) -> Seq<char>
    decreases k,
{
    if k <= 0 {
        Seq::empty()
    } else {
        team_scores(st, k - 1) + team_symbol(k - 1) + " "@ + team_name(k - 1) + ": "@ + decimal(
            st.team_sequence_counts[k - 1] as nat,
        ) + "/"@ + decimal(st.config.target_sequences as nat) + " | "@
    }
}

/// The score line: each team's sequences, then the cards left in the deck.
pub open spec fn scores_text(st: SequenceState) -> Seq<char> {
    "Sequences: "@ + team_scores(st, st.config.num_teams as int) + "Deck: "@ + decimal(st.deck@.len()) + " left"@
}

/// The end-of-game message.
pub open spec fn win_text(winner: Option<u8>) -> Seq<char> {
    match winner {
        Some(w) => "GAME OVER: Team "@ + decimal(w as nat) + " ("@ + team_name(w as int) + ") WINS!"@,
        None => "GAME OVER: Match ended in a DRAW!"@,
    }
}

/// The banner's title lines.
pub open spec fn banner_head() -> Seq<char> {
    "\n╔══════════════════════════════════════════════════════════════════════╗\n"@
        + "║                          SEQUENCE MATCH                              ║\n"@
        + "╠══════════════════════════════════════════════════════════════════════╣\n"@
}

/// The banner's turn line.
pub open spec fn turn_line(st: SequenceState) -> Seq<char> {
    "║ "@ + pad_right(turn_text(st), 68) + " ║\n"@
}

/// The banner's score line.
pub open spec fn scores_line(st: SequenceState) -> Seq<char> {
    "║ "@ + pad_right(scores_text(st), 68) + " ║\n"@
}

/// The banner's result line, once the game is over.
pub open spec fn win_line(st: SequenceState) -> Seq<char> {
    if st.terminated {
        "║ \x1b[1;32m"@ + pad_right(win_text(st.winner_team), 68) + "\x1b[0m ║\n"@
    } else {
        Seq::empty()
    }
}

/// The banner's closing line.
pub open spec fn banner_foot() -> Seq<char> {
    "╚══════════════════════════════════════════════════════════════════════╝\n\n"@
}

/// The banner: title, turn and scores, and the result once the game is over.
pub open spec fn banner_text(st: SequenceState) -> Seq<char> {
    banner_head() + turn_line(st) + scores_line(st) + win_line(st) + banner_foot()
}

/// The tag after a card in the hand.
#[verifier::opaque]
pub open spec fn card_tag(board: Seq<Option<u8>>, card: Card) -> Seq<char> {
    if spec_two_eyed(card) {
        " (Wild)"@
    } else if spec_one_eyed(card) {
        " (Remove)"@
    } else if spec_dead(board, card) {
        " (DEAD)"@
    } else {
        ""@
    }
}

/// The first `k` cards of a hand, numbered and tagged.
pub open spec fn hand_cards(board: Seq<Option<u8>>, hand: Seq<Card>, k: int) -> Seq<char>
    decreases k,
{
    if k <= 0 {
        Seq::empty()
    } else {
        hand_cards(board, hand, k - 1) + "["@ + decimal((k - 1) as nat) + "]: "@ + card_shown(hand[k - 1])
            + card_tag(board, hand[k - 1]) + "  "@
    }
}

/// The hand of the player to move.
pub open spec fn hand_text(st: SequenceState) -> Seq<char> {
    let hand = st.hands@[st.current_player as int]@;
    "\nPlayer "@ + decimal(st.current_player as nat) + "'s Hand ("@ + decimal(hand.len()) + " cards): "@
        + hand_cards(st.board@, hand, hand.len() as int) + "\n"@
}

/// The whole position as text: banner, board, and the mover's hand.
pub open spec fn state_text(st: SequenceState, use_color: bool) -> Seq<char> {
    banner_text(st) + board_text(st.board@, st.locked_chips@, use_color) + hand_text(st)
}

fn push_turn_line(out: &mut Vec<char>, state: &SequenceState)
    requires
        0 < state.config.num_teams <= 3,
        state.total_moves < usize::MAX,
    ensures
        final(out)@ == old(out)@ + turn_line(*state),
{
    let team = state.active_team();
    let mut line: Vec<char> = Vec::new();
    extend_str(&mut line, "Turn ");
    extend_chars(&mut line, decimal_chars(state.total_moves + 1).as_slice());
    extend_str(&mut line, ": Player ");
    extend_chars(&mut line, decimal_chars(state.current_player).as_slice());
    extend_str(&mut line, " (Team ");
    extend_chars(&mut line, decimal_chars(team as usize).as_slice());
    extend_str(&mut line, " - ");
    push_team_name(&mut line, team as usize);
    extend_str(&mut line, ")");
    assert(line@ == turn_text(*state));
    extend_str(out, "║ ");
    push_padded_right(out, line.as_slice(), 68);
    extend_str(out, " ║\n");
}

fn push_scores_line(out: &mut Vec<char>, state: &SequenceState)
    requires
        0 < state.config.num_teams <= 3,
    ensures
        final(out)@ == old(out)@ + scores_line(*state),
{
    let mut scores: Vec<char> = Vec::new();
    extend_str(&mut scores, "Sequences: ");
    let ghost s0 = scores@;
    let mut t: usize = 0;
    while t < state.config.num_teams
        invariant
            0 < state.config.num_teams <= 3,
            t <= state.config.num_teams,
            scores@ == s0 + team_scores(*state, t as int),
        decreases state.config.num_teams - t,
    {
        push_team_symbol(&mut scores, t);
        extend_str(&mut scores, " ");
        push_team_name(&mut scores, t);
        extend_str(&mut scores, ": ");
        extend_chars(&mut scores, decimal_chars(state.team_sequence_counts[t] as usize).as_slice());
        extend_str(&mut scores, "/");
        extend_chars(&mut scores, decimal_chars(state.config.target_sequences as usize).as_slice());
        extend_str(&mut scores, " | ");
        t = t + 1;
    }
    extend_str(&mut scores, "Deck: ");
    extend_chars(&mut scores, decimal_chars(state.deck.len()).as_slice());
    extend_str(&mut scores, " left");
    assert(scores@ == scores_text(*state));
    extend_str(out, "║ ");
    push_padded_right(out, scores.as_slice(), 68);
    extend_str(out, " ║\n");
}

fn push_win_line(out: &mut Vec<char>, winner: Option<u8>)
    requires
        winner matches Some(w) ==> w < 3,
    ensures
        final(out)@ == old(out)@ + ("║ \x1b[1;32m"@ + pad_right(win_text(winner), 68) + "\x1b[0m ║\n"@),
{
    let mut msg: Vec<char> = Vec::new();
    match winner {
        Some(w) => {
            extend_str(&mut msg, "GAME OVER: Team ");
            extend_chars(&mut msg, decimal_chars(w as usize).as_slice());
            extend_str(&mut msg, " (");
            push_team_name(&mut msg, w as usize);
            extend_str(&mut msg, ") WINS!");
        },
        None => {
            extend_str(&mut msg, "GAME OVER: Match ended in a DRAW!");
        },
    }
    assert(msg@ == win_text(winner));
    extend_str(out, "║ \x1b[1;32m");
    push_padded_right(out, msg.as_slice(), 68);
    extend_str(out, "\x1b[0m ║\n");
}

fn push_banner(out: &mut Vec<char>, state: &SequenceState)
    requires
        0 < state.config.num_teams <= 3,
        state.total_moves < usize::MAX,
        state.winner_team matches Some(w) ==> w < 3,
    ensures
        final(out)@ == old(out)@ + banner_text(*state),
{
    let ghost o0 = out@;
    extend_str(out, "\n╔══════════════════════════════════════════════════════════════════════╗\n");
    extend_str(out, "║                          SEQUENCE MATCH                              ║\n");
    extend_str(out, "╠══════════════════════════════════════════════════════════════════════╣\n");
    let ghost o1 = out@;
    assert(o1 == o0 + banner_head());
    push_turn_line(out, state);
    let ghost o2 = out@;
    push_scores_line(out, state);
    let ghost o3 = out@;
    if state.terminated {
        push_win_line(out, state.winner_team);
    }
    let ghost o4 = out@;
    assert(o4 == o3 + win_line(*state));
    extend_str(out, "╚══════════════════════════════════════════════════════════════════════╝\n\n");
    assert(out@ == o4 + banner_foot());
    assert(out@ == o0 + banner_head() + turn_line(*state) + scores_line(*state) + win_line(*state) + banner_foot());
}

/// Appends hand card `i`: its number, the card and its tag.
fn push_hand_card(out: &mut Vec<char>, state: &SequenceState, card: Card, i: usize)
    requires
        spec_two_eyed(card) || spec_one_eyed(card) || on_board_twice(card),
    ensures
        final(out)@ == old(out)@ + ("["@ + decimal(i as nat) + "]: "@ + card_shown(card) + card_tag(
            state.board@,
            card,
        ) + "  "@),
{
    let ghost start = out@;
    extend_str(out, "[");
    extend_chars(out, decimal_chars(i).as_slice());
    extend_str(out, "]: ");
    push_card(out, card);
    let ghost mid = out@;
    if is_two_eyed_jack(card) {
        extend_str(out, " (Wild)");
    } else if is_one_eyed_jack(card) {
        extend_str(out, " (Remove)");
    } else if state.is_dead_card(card) {
        extend_str(out, " (DEAD)");
    } else {
        extend_str(out, "");
    }
    assert(out@ == mid + card_tag(state.board@, card)) by {
        reveal(card_tag);
    }
    extend_str(out, "  ");
}

#[verifier::rlimit(40)]
fn push_hand(out: &mut Vec<char>, state: &SequenceState)
    requires
        state.current_player < state.hands@.len(),
        known_cards(state.hands@[state.current_player as int]@),
    ensures
        final(out)@ == old(out)@ + hand_text(*state),
{
    let hand = &state.hands[state.current_player];
    let ghost hv = hand@;
    extend_str(out, "\nPlayer ");
    extend_chars(out, decimal_chars(state.current_player).as_slice());
    extend_str(out, "'s Hand (");
    extend_chars(out, decimal_chars(hand.len()).as_slice());
    extend_str(out, " cards): ");
    let ghost h0 = out@;
    let mut i: usize = 0;
    while i < hand.len()
        invariant
            i <= hv.len(),
            hv == hand@,
            known_cards(hv),
            out@ == h0 + hand_cards(state.board@, hv, i as int),
        decreases hv.len() - i,
    {
        let card = hand[i];
        assert(known_cards(hv) ==> (spec_two_eyed(hv[i as int]) || spec_one_eyed(hv[i as int]) || on_board_twice(
            hv[i as int],
        )));
        push_hand_card(out, state, card, i);
        assert(hand_cards(state.board@, hv, i + 1) == hand_cards(state.board@, hv, i as int) + ("["@ + decimal(
            i as nat,
        ) + "]: "@ + card_shown(hv[i as int]) + card_tag(state.board@, hv[i as int]) + "  "@));
        i = i + 1;
    }
    extend_str(out, "\n");
}

/// The whole position: a banner with the turn, the scores and the result,
/// the board, and the hand of the player to move with each card tagged.
pub fn render_state(state: &SequenceState, use_color: bool) -> (s: String)
    requires
        0 < state.config.num_teams <= 3,
        state.total_moves < usize::MAX,
        state.winner_team matches Some(w) ==> w < 3,
        state.current_player < state.hands@.len(),
        known_cards(state.hands@[state.current_player as int]@),
    ensures
        s@ == state_text(*state, use_color),
{
    let mut out: Vec<char> = Vec::new();
    push_banner(&mut out, state);
    let b = render_board(&state.board, &state.locked_chips, use_color);
    extend_chars(&mut out, chars_of(b.as_str()).as_slice());
    push_hand(&mut out, state);
    string_of(out.as_slice())
}

} // verus!
