use boardgames::blokus::game::BlokusDuoState;
use boardgames::blokus::render::{piece_name, render_inventory, render_scoreboard};
use boardgames::connection::connect4::{Color, Move, C4};
use boardgames::connection::util::RectBitSet;
use boardgames::hex::evaluator::ShortestPathHeuristicEvaluator;
use boardgames::hex::game::{HexPlayer, HexState};
use boardgames::sequence::board::{
    board_layout, card_positions, coord_to_index, create_double_deck, is_jack, BoardCell, Card,
};
use boardgames::sequence::evaluator::{team_jacks, window_threats};
use boardgames::sequence::game::{SequenceAction, SequenceConfig, SequenceState};
use boardgames::sequence::render::{format_action, format_card, format_cell, render_board};
use boardgames::text::{signed_decimal_chars, string_of};

fn card(rank: char, suit: char) -> Card {
    Card { rank, suit }
}

#[test]
fn format_card_uses_suit_symbols() {
    assert_eq!(format_card(card('A', 'S')), "A♠");
    assert_eq!(format_card(card('T', 'H')), "T♥");
    assert_eq!(format_card(card('7', 'D')), "7♦");
    assert_eq!(format_card(card('J', 'C')), "J♣");
}

#[test]
fn format_card_outside_deck_shows_index_characters() {
    assert_eq!(format_card(card('X', 'Z')), "XZ");
}

#[test]
fn format_cell_variants() {
    assert_eq!(format_cell(0, 0, None, false, false), " ★  ");
    assert_eq!(format_cell(9, 9, Some(1), true, true), "\x1b[1;33m ★  \x1b[0m");
    assert_eq!(format_cell(0, 1, None, false, false), "2♠ ");
    assert_eq!(format_cell(0, 1, None, false, true), "\x1b[90m2♠\x1b[0m ");
    assert_eq!(format_cell(1, 1, Some(1), true, false), "[G] ");
    assert_eq!(format_cell(1, 1, Some(0), false, false), " B  ");
    assert_eq!(format_cell(1, 1, Some(2), false, true), "\x1b[1;31m ●R\x1b[0m ");
    assert_eq!(format_cell(1, 1, Some(7), false, true), " ?  ");
}

#[test]
fn format_action_sentences() {
    let wild = SequenceAction::PlayCard { card: card('J', 'C'), pos: (3, 4) };
    assert_eq!(format_action(&wild), "Play Wild Jack J♣ -> (3, 4)");
    let play = SequenceAction::PlayCard { card: card('5', 'H'), pos: (8, 0) };
    assert_eq!(format_action(&play), "Play 5♥ -> (8, 0)");
    let remove = SequenceAction::RemoveToken { card: card('J', 'S'), pos: (2, 5) };
    assert_eq!(format_action(&remove), "Remove token at (2, 5) with J♠");
    let discard = SequenceAction::DiscardDeadCard { card: card('Q', 'D') };
    assert_eq!(format_action(&discard), "Discard Dead Card Q♦ (draw replacement)");
}

#[test]
fn sequence_board_picture_frame() {
    let board = [None; 100];
    let locked = [false; 100];
    let text = render_board(&board, &locked, false);
    let lines: Vec<&str> = text.lines().collect();
    assert_eq!(lines.len(), 1 + 1 + 10 + 9 + 1);
    assert_eq!(lines[0], "      0   1   2   3   4   5   6   7   8   9 ");
    assert!(lines[1].starts_with("   ┌────┬"));
    assert!(lines[2].starts_with(" 0 │ ★  │2♠ │3♠ │"));
    assert!(lines[21].starts_with("   └────┴"));
}

#[test]
fn blokus_inventory_lists_all_pieces_three_per_line() {
    let s = BlokusDuoState::new();
    let text = render_inventory(&s, 0);
    let lines: Vec<&str> = text.lines().collect();
    assert_eq!(lines[0], "Inventory for Player 0 (Blue):");
    assert_eq!(lines.len(), 8);
    assert_eq!(lines[1], "  [ 0] Monomino (1)   (1 sq)   [ 1] Domino (2)     (2 sq)   [ 2] I3             (3 sq) ");
    assert_eq!(piece_name(20), "Z5");
}

#[test]
fn blokus_scoreboard_rows() {
    let s = BlokusDuoState::new();
    let text = render_scoreboard(&s, false);
    let lines: Vec<&str> = text.lines().collect();
    assert_eq!(lines.len(), 5 + 2 + 1);
    assert_eq!(lines[5], "│ Player 0 │ Blue       │ -89      │ 89       │ ► ACTIVE ◄      │");
    assert_eq!(lines[6], "│ Player 1 │ Yellow     │ -89      │ 89       │ Waiting         │");
}

#[test]
fn signed_decimal_text() {
    assert_eq!(string_of(&signed_decimal_chars(-2147483648)), "-2147483648");
    assert_eq!(string_of(&signed_decimal_chars(0)), "0");
    assert_eq!(string_of(&signed_decimal_chars(42)), "42");
}

#[test]
fn hex_shortest_paths_on_empty_board() {
    let s = HexState::<3>::new();
    assert_eq!(ShortestPathHeuristicEvaluator::<3>::black_shortest_path(&s), 3);
    assert_eq!(ShortestPathHeuristicEvaluator::<3>::white_shortest_path(&s), 3);
}

#[test]
fn hex_shortest_paths_with_stones() {
    let mut s = HexState::<3>::new();
    s.board[1] = Some(HexPlayer::Black);
    s.board[4] = Some(HexPlayer::Black);
    assert_eq!(ShortestPathHeuristicEvaluator::<3>::black_shortest_path(&s), 1);
    s.board[7] = Some(HexPlayer::Black);
    assert_eq!(ShortestPathHeuristicEvaluator::<3>::black_shortest_path(&s), 0);
    assert_eq!(ShortestPathHeuristicEvaluator::<3>::white_shortest_path(&s), u16::MAX);
}

#[test]
fn hex_shortest_path_uses_the_diagonal_neighbours() {
    let mut s = HexState::<3>::new();
    s.board[2] = Some(HexPlayer::Black);
    s.board[4] = Some(HexPlayer::Black);
    s.board[6] = Some(HexPlayer::Black);
    assert_eq!(ShortestPathHeuristicEvaluator::<3>::black_shortest_path(&s), 0);
    s.board[3] = Some(HexPlayer::White);
    s.board[5] = Some(HexPlayer::White);
    assert_eq!(ShortestPathHeuristicEvaluator::<3>::white_shortest_path(&s), u16::MAX);
}

#[test]
fn connect_four_start_and_moves() {
    let game: C4<6, 7> = C4;
    let mut s = game.start_state();
    assert_eq!(game.agents(), vec![Color::Red, Color::Blue]);
    assert_eq!(game.legal_actions(&s).len(), 7);
    assert!(!game.check_terminal(&s));
    assert_eq!(game.apply_action(&mut s, &Move(3)), None);
    assert_eq!(game.agent_to_act(&s), Color::Blue);
    let b: u8 = Color::Blue.into();
    assert_eq!(b, 1);
}

#[test]
fn connect_four_vertical_win() {
    let game: C4<6, 7> = C4;
    let mut s = game.start_state();
    for _ in 0..3 {
        assert_eq!(game.apply_action(&mut s, &Move(0)), None);
        assert_eq!(game.apply_action(&mut s, &Move(1)), None);
    }
    assert_eq!(game.apply_action(&mut s, &Move(0)), Some(Color::Red));
    assert!(game.check_terminal(&s));
    assert_eq!(game.agent_to_act(&s), Color::Red);
}

#[test]
fn connect_four_full_column_is_not_offered() {
    let game: C4<6, 7> = C4;
    let mut s = game.start_state();
    for _ in 0..6 {
        assert_eq!(game.apply_action(&mut s, &Move(0)), None);
    }
    let moves = game.legal_actions(&s);
    assert_eq!(moves.len(), 6);
    assert_eq!(moves[0], Move(1));
}

#[test]
fn connect_four_ray_past_last_column_reads_next_row() {
    let game: C4<6, 7> = C4;
    let mut s = game.start_state();
    for col in [0u8, 1, 0, 1, 4, 2, 5, 2] {
        assert_eq!(game.apply_action(&mut s, &Move(col)), None);
    }
    assert_eq!(game.apply_action(&mut s, &Move(6)), Some(Color::Red));
}

#[test]
fn connect_four_picture() {
    let game: C4<2, 3> = C4;
    let mut s = game.start_state();
    game.apply_action(&mut s, &Move(1));
    game.apply_action(&mut s, &Move(1));
    assert_eq!(s.render(), " |B| |\n |R| |\n0|1|2|");
}

#[test]
fn rect_bit_set_rays() {
    let mut g: RectBitSet<4, 4> = RectBitSet::new();
    g.set((0, 1), true);
    g.set((0, 2), true);
    g.set((0, 3), true);
    assert!(g.get((0, 2)));
    assert!(!g.get((1, 2)));
    assert_eq!(g.ray_count((0, 0), (0, 1), 3), 3);
    assert_eq!(g.ray_count((0, 0), (0, 1), 2), 2);
    assert_eq!(g.ray_count((0, 0), (1, 0), 3), 0);
    assert_eq!(g.ray_count((0, 4), (0, -1), 3), 3);
}

#[test]
fn every_non_jack_card_is_on_the_board_twice() {
    let layout = board_layout();
    let deck = create_double_deck();
    for c in deck.iter().take(52) {
        if is_jack(*c) {
            continue;
        }
        let pos = card_positions(*c);
        assert_ne!(pos[0], pos[1]);
        for (r, col) in pos {
            assert_eq!(layout[coord_to_index(r, col)], BoardCell::Card(*c));
        }
        let count = layout.iter().filter(|cell| **cell == BoardCell::Card(*c)).count();
        assert_eq!(count, 2);
    }
}

#[test]
fn window_threats_counts_open_windows() {
    let mut board = [None; 100];
    let empty = window_threats(&board, 0);
    assert_eq!(empty.len(), 192);
    assert_eq!(empty[0], 1);
    assert_eq!(empty[1], 0);
    board[1] = Some(0);
    board[2] = Some(0);
    board[3] = Some(0);
    let v = window_threats(&board, 0);
    assert_eq!(v[0], 4);
    assert_eq!(v[1], 3);
    board[5] = Some(1);
    let w = window_threats(&board, 0);
    assert_eq!(w[0], 4);
    assert_eq!(w[1], 0);
    assert_eq!(window_threats(&board, 1)[1], 0);
    assert_eq!(window_threats(&board, 1)[5], 2);
}

#[test]
fn team_jacks_lists_jacks_by_seat() {
    let config = SequenceConfig::new_2p();
    let mut deck = Vec::new();
    for _ in 0..20 {
        deck.push(card('5', 'H'));
    }
    let mut s = SequenceState::new_with_deck(config, deck);
    s.hands[0] = vec![card('J', 'C'), card('2', 'S'), card('J', 'S')];
    s.hands[1] = vec![card('J', 'D')];
    assert_eq!(team_jacks(&s, 0), vec![2, 1]);
    assert_eq!(team_jacks(&s, 1), vec![2]);
}

#[test]
fn connect_four_horizontal_win() {
    let game: C4<6, 7> = C4;
    let mut s = game.start_state();
    for col in [1u8, 1, 2, 2, 4, 4] {
        assert_eq!(game.apply_action(&mut s, &Move(col)), None);
    }
    assert_eq!(game.apply_action(&mut s, &Move(3)), Some(Color::Red));
}

#[test]
fn connect4_framed_board() {
    use_connect4_picture();
}

fn use_connect4_picture() {
    let mut s = boardgames::connect4::game::Connect4State::<2, 2>::new();
    s.board[1][0] = Some(boardgames::connect4::game::Player::Red);
    let text = boardgames::connect4::render::render_board(&s);
    assert_eq!(
        text,
        "    0   1 \n  ┌───┬───┐\n  │   │   │\n  ├───┼───┤\n  │ X │   │\n  └───┴───┘\n    0   1 \n"
    );
}

#[test]
fn blokus_action_texts() {
    use_blokus_action_texts();
}

fn use_blokus_action_texts() {
    let a = boardgames::blokus::game::BlokusAction::Place { piece_id: 3, orientation: 1, row: 4, col: 15 };
    assert_eq!(a.to_string(), "Place piece 3 (ori 1) at (4, 15)");
    assert_eq!(a.debug_string(), "Place(id=3, ori=1, r=4, c=15)");
    assert_eq!(boardgames::blokus::game::BlokusAction::Pass.to_string(), "Pass");
}

#[test]
fn determinized_state_keeps_known_cards_and_counts() {
    let mut rng = rand::thread_rng();
    let state = SequenceState::new(SequenceConfig::new_2p(), &mut rng);
    let world = boardgames::sequence::world::SequenceWorld::<2>::new(SequenceConfig::new_2p());
    let obs = world.observe(&state, 0);
    let unseen = boardgames::sequence::dynamics::unseen_cards(&obs);
    assert_eq!(unseen.len(), 104 - 7);
    let guess = boardgames::sequence::dynamics::determinize_state(&obs, &mut rng);
    assert_eq!(guess.hands[0], state.hands[0]);
    assert_eq!(guess.hands[1].len(), 7);
    assert_eq!(guess.deck.len(), 104 - 14);
    assert_eq!(guess.board, state.board);
    let dealt = boardgames::sequence::dynamics::deal_guess(&obs, unseen.clone());
    assert_eq!(dealt.hands[1], vec![unseen[96], unseen[95], unseen[94], unseen[93], unseen[92], unseen[91], unseen[90]]);
}

#[test]
fn hex_rollout_fill_decides_black_connection() {
    let s = HexState::<3>::new();
    assert!(boardgames::hex::evaluator::rollout_black_wins(&s, &[1, 0, 4, 3, 7, 6, 2, 5, 8]));
    assert!(!boardgames::hex::evaluator::rollout_black_wins(&s, &[0, 3, 1, 4, 2, 5, 6, 7, 8]));
    let e = boardgames::hex::evaluator::RolloutEvaluator::<3>::new(5, 9);
    let wins = e.black_rollout_wins(&s, &mut rand::thread_rng());
    assert!(wins <= 5);
}

#[test]
fn tactical_opponent_wins_blocks_or_takes_centre() {
    use_tactical();
}

fn use_tactical() {
    use_tactical_inner(boardgames::connect4::dynamics::TacticalOpponent);
}

fn use_tactical_inner(t: boardgames::connect4::dynamics::TacticalOpponent) {
    type S = boardgames::connect4::game::Connect4State<6, 7>;
    let red = boardgames::connect4::game::Player::Red;
    let yellow = boardgames::connect4::game::Player::Yellow;
    let empty = S::new();
    assert_eq!(t.select_action(&empty), 3);

    let mut win = S::new();
    for _ in 0..3 {
        win.drop_piece(5).unwrap();
    }
    win.current_player = yellow;
    win.drop_piece(0).unwrap();
    win.current_player = red;
    assert_eq!(t.select_action(&win), 5);

    let mut block = S::new();
    block.current_player = yellow;
    for _ in 0..3 {
        block.drop_piece(1).unwrap();
    }
    block.current_player = red;
    block.drop_piece(6).unwrap();
    assert_eq!(t.select_action(&block), 1);
}

#[test]
fn blokus_move_scores() {
    use_blokus_scores();
}

fn use_blokus_scores() {
    let s = BlokusDuoState::new();
    assert_eq!(s.move_score(&boardgames::blokus::game::BlokusAction::Pass, 0), -1000);
    let mut legal = Vec::new();
    s.legal_actions(&mut legal);
    let mono = legal
        .iter()
        .find(|a| matches!(a, boardgames::blokus::game::BlokusAction::Place { piece_id: 0, .. }))
        .copied()
        .unwrap();
    assert_eq!(s.move_score(&mono, 0), 10 + 2 * 4);
    assert_eq!(s.corner_count(0), 0);
}

#[test]
fn blokus_state_debug_text() {
    let s = BlokusDuoState::new();
    assert_eq!(s.debug_string(), "BlokusState(B=14, P=2, turn=0, moves=0, terminal=false)");
    let d: BlokusDuoState = Default::default();
    assert_eq!(d.debug_string(), s.debug_string());
}
