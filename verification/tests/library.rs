use boardgames::blokus::dynamics::rank_margins;
use boardgames::blokus::render::render_board as render_blokus;
use boardgames::blokus::game::BlokusDuoState;
use boardgames::connect4::agent::{RandomAgent as C4Random, TacticalAgent};
use boardgames::connect4::dynamics::RandomOpponent;
use boardgames::connect4::game::{Connect4State, Player};
use boardgames::connect4::world::Connect4World;
use boardgames::hex::agent::RandomAgent as HexRandom;
use boardgames::hex::evaluator::RolloutEvaluator;
use boardgames::hex::game::{HexPlayer, HexState};
use boardgames::hex::render::render_board_styled;
use boardgames::hex::world::HexWorld;
use boardgames::sat::CNF;
use boardgames::sequence::board::{
    card_positions, create_double_deck, detect_sequences, index_to_coord, is_corner, is_corner_index, is_jack,
    is_one_eyed_jack, is_two_eyed_jack, Card, SequenceRecord,
};
use boardgames::sequence::game::{SequenceAction, SequenceConfig, SequenceState};
use boardgames::sequence::world::SequenceWorld;
use boardgames::text::{chars_of, decimal_chars, parse_usize, split_parts, trim_chars};
use boardgames::tzf8::render::format_tile;

fn card(rank: char, suit: char) -> Card {
    Card { rank, suit }
}

#[test]
fn rank_margins_are_zero_sum() {
    let m = rank_margins(&[20, 10, -5, -20]);
    assert_eq!(m, [3, 1, -1, -3]);
    assert_eq!(m.iter().sum::<i32>(), 0);
    let t = rank_margins(&[10, 10, 0, -10]);
    assert_eq!(t, [2, 2, -1, -3]);
    assert_eq!(t.iter().sum::<i32>(), 0);
    assert_eq!(rank_margins(&[5, 5]), [0, 0]);
}

#[test]
fn decimal_and_parse_roundtrip() {
    for n in [0usize, 7, 10, 99, 12345, usize::MAX] {
        let d = decimal_chars(n);
        assert_eq!(d.iter().collect::<String>(), n.to_string());
        assert_eq!(parse_usize(&d), Some(n));
    }
    assert_eq!(parse_usize(&chars_of("+42")), Some(42));
    assert_eq!(parse_usize(&chars_of("")), None);
    assert_eq!(parse_usize(&chars_of("+")), None);
    assert_eq!(parse_usize(&chars_of("-1")), None);
    assert_eq!(parse_usize(&chars_of("18446744073709551616")), None);
}

#[test]
fn trim_and_split() {
    let t = trim_chars(&chars_of("\t  a b \u{3000}\n"));
    assert_eq!(t.iter().collect::<String>(), "a b");
    let parts = split_parts(&chars_of("a::b:"), ':');
    let parts: Vec<String> = parts.iter().map(|p| p.iter().collect()).collect();
    assert_eq!(parts, vec!["a", "", "b", ""]);
}

#[test]
fn hex_coordinates_roundtrip_and_edges() {
    for idx in 0..=49usize {
        let name = HexState::<7>::coord_to_str(idx);
        assert_eq!(HexState::<7>::str_to_coord(&name), Some(idx), "{name}");
    }
    assert_eq!(HexState::<7>::str_to_coord("  c3 "), Some(16));
    assert_eq!(HexState::<7>::str_to_coord("2,3"), Some(17));
    assert_eq!(HexState::<7>::str_to_coord("7 0"), None);
    assert_eq!(HexState::<7>::str_to_coord("49"), None);
    assert_eq!(HexState::<7>::str_to_coord(""), None);
    assert_eq!(HexState::<7>::str_to_coord("H1"), None);
}

#[test]
fn hex_world_steps_and_random_agent() {
    let world = HexWorld::<3>::new();
    let mut state = world.initial();
    let step = world.apply_action(&mut state, 4);
    assert!(!step.terminated);
    assert_eq!(state.current_player, HexPlayer::White);
    let mut bot = HexRandom::new();
    let mut legal = Vec::new();
    state.legal_actions(&mut legal);
    let a = bot.select_action(&state);
    assert!(legal.contains(&a));
    assert_eq!(RolloutEvaluator::<3>::new(0, 5).num_rollouts, 1);
}

#[test]
fn hex_dsu_merges_sets() {
    let mut dsu: Vec<u16> = (0..6).collect();
    HexState::<2>::dsu_union(&mut dsu, 0, 1);
    HexState::<2>::dsu_union(&mut dsu, 2, 3);
    assert_ne!(HexState::<2>::dsu_find(&mut dsu, 0), HexState::<2>::dsu_find(&mut dsu, 2));
    HexState::<2>::dsu_union(&mut dsu, 1, 3);
    assert_eq!(HexState::<2>::dsu_find(&mut dsu, 0), HexState::<2>::dsu_find(&mut dsu, 2));
    assert_ne!(HexState::<2>::dsu_find(&mut dsu, 4), HexState::<2>::dsu_find(&mut dsu, 0));
}

#[test]
fn hex_render_shape() {
    let mut state = HexState::<3>::new();
    state.play_move(4);
    let plain = render_board_styled(&state, false);
    assert!(plain.contains(" 2 ║ · X · ║ 2\n"));
    assert!(plain.starts_with("   ▼ Top: Black (X) connects Top ↔ Bottom ▼\n      A B C\n    ╔══════╗\n"));
}

#[test]
fn connect4_world_win_and_agents() {
    let world = Connect4World::<6, 7>::new();
    let mut state = Connect4State::<6, 7>::new();
    for col in [0, 1, 0, 1, 0, 1] {
        let step = world.apply_action(&mut state, col);
        assert!(!step.terminated);
    }
    let step = world.apply_action(&mut state, 0);
    assert_eq!(step.winner, Some(Player::Red));
    assert!(step.terminated);
    assert!(state.has_won(Player::Red));
    let s2 = Connect4State::<6, 7>::new();
    let c = C4Random::new("r").select_action(&s2);
    assert!(c < 7);
    let c2 = RandomOpponent::new().select_action(&s2);
    assert!(c2 < 7);
    assert_eq!(TacticalAgent::new("T").name(), "T");
}

#[test]
fn blokus_render_plain() {
    let state = BlokusDuoState::new();
    let text = render_blokus(&state, false);
    assert!(text.starts_with("     0  1  2  3"));
    assert!(text.contains(" 4 │· │· │· │· │★ │"));
    assert!(text.ends_with("┘\n"));
}

#[test]
fn sequence_cards_and_deck() {
    let deck = create_double_deck();
    assert_eq!(deck.len(), 104);
    assert_eq!(deck.iter().filter(|c| is_jack(**c)).count(), 8);
    assert_eq!(deck.iter().filter(|c| is_two_eyed_jack(**c)).count(), 4);
    assert_eq!(deck.iter().filter(|c| is_one_eyed_jack(**c)).count(), 4);
    assert_eq!(deck[0], card('A', 'S'));
    assert_eq!(deck[51], card('2', 'C'));
    assert_eq!(card_positions(card('2', 'S')), [(0, 1), (8, 6)]);
    assert_eq!(index_to_coord(57), (5, 7));
    assert!(is_corner(9, 0) && !is_corner(9, 1));
    assert!(is_corner_index(99) && !is_corner_index(98));
}

#[test]
fn sequence_record_sorts_cells() {
    let r = SequenceRecord::new(1, [40, 3, 22, 3, 9]);
    assert_eq!(r.cells, [3, 3, 9, 22, 40]);
    let other = SequenceRecord::new(1, [0, 3, 9, 50, 60]);
    assert_eq!(r.shared_non_corner_count(&other), 2);
}

#[test]
fn sequence_full_scan_finds_diagonal() {
    let mut board = [None; 100];
    for k in 1..=4u8 {
        board[(k * 11) as usize] = Some(2);
    }
    let mut locked = [false; 100];
    let mut seqs = Vec::new();
    assert_eq!(detect_sequences(&board, 2, None, &mut locked, &mut seqs), 1);
    assert_eq!(seqs[0].cells, [0, 11, 22, 33, 44]);
    assert!(!locked[0] && locked[11] && locked[44]);
    assert_eq!(detect_sequences(&board, 2, None, &mut locked, &mut seqs), 0);
}

#[test]
fn sequence_deal_and_turn() {
    let deck: Vec<Card> = create_double_deck();
    let mut state = SequenceState::new_with_deck(SequenceConfig::new_2p(), deck);
    assert_eq!(state.hands[0].len(), 7);
    assert_eq!(state.hands[1].len(), 7);
    assert_eq!(state.deck.len(), 90);
    assert_eq!(state.hands[0][0], card('2', 'C'));
    state.hands[0] = vec![card('J', 'C')];
    let mut legal = Vec::new();
    state.legal_actions(&mut legal);
    assert_eq!(legal.len(), 96);
    let mut rng = rand::thread_rng();
    state.step(&SequenceAction::PlayCard { card: card('J', 'C'), pos: (5, 5) }, &mut rng);
    assert_eq!(state.board[55], Some(0));
    assert_eq!(state.current_player, 1);
    assert_eq!(state.hands[0].len(), 1);
    assert_eq!(state.discards, vec![card('J', 'C')]);
    let world = SequenceWorld::<2>::new(SequenceConfig::new_2p());
    let obs = world.observe(&state, 1);
    assert_eq!(obs.my_hand, state.hands[1]);
    assert_eq!(obs.deck_remaining, state.deck.len());
}

#[test]
fn sequence_shuffled_game_keeps_cards() {
    let mut rng = rand::thread_rng();
    let state = SequenceState::new(SequenceConfig::new_3p(), &mut rng);
    let mut all: Vec<Card> = state.deck.clone();
    for h in &state.hands {
        all.extend_from_slice(h);
    }
    let mut expected = create_double_deck();
    let key = |c: &Card| (c.rank, c.suit);
    all.sort_by_key(key);
    expected.sort_by_key(key);
    assert_eq!(all, expected);
    assert_eq!(state.hands.len(), 3);
}

#[test]
fn tile_formatting() {
    assert_eq!(format_tile(0), "\x1b[90m     .\x1b[0m");
    assert_eq!(format_tile(2048), "\x1b[1;93m  2048\x1b[0m");
    assert_eq!(format_tile(4096), "\x1b[1;97;41m  4096\x1b[0m");
    assert_eq!(format_tile(1234567), "\x1b[1;97;41m1234567\x1b[0m");
}

#[test]
fn cnf_clauses() {
    let mut f = CNF::new(3);
    f.add_clause(vec![1, -2, 3]);
    assert_eq!(f.clauses, vec![vec![1, -2, 3]]);
    assert_eq!(f.var_count, 3);
}
