use boardgames::numeral::{numeral_error_exec, numeral_ok_exec};
use boardgames::hex::game::{HexPlayer, HexState};
use boardgames::hex::agent::HexAgentSpec;
use boardgames::hex::evaluator::RolloutEvaluator;

#[test]
fn test_coordinate_roundtrip() {
    assert_eq!(HexState::<11>::coord_to_str(0), "A1");
    assert_eq!(HexState::<11>::coord_to_str(10), "K1");
    assert_eq!(HexState::<11>::coord_to_str(11), "A2");
    assert_eq!(HexState::<11>::coord_to_str(120), "K11");

    assert_eq!(HexState::<11>::str_to_coord("A1"), Some(0));
    assert_eq!(HexState::<11>::str_to_coord("a1"), Some(0));
    assert_eq!(HexState::<11>::str_to_coord("K1"), Some(10));
    assert_eq!(HexState::<11>::str_to_coord("A2"), Some(11));
    assert_eq!(HexState::<11>::str_to_coord("K11"), Some(120));
    assert_eq!(HexState::<11>::str_to_coord("0 0"), Some(0));
    assert_eq!(HexState::<11>::str_to_coord("10 10"), Some(120));
    assert_eq!(HexState::<11>::str_to_coord("120"), Some(120));
    assert_eq!(HexState::<11>::str_to_coord("Z99"), None);
}

#[test]
fn test_black_win_connection() {
    let mut state = HexState::<3>::new();
    assert!(!state.play_move(0));
    assert_eq!(state.current_player, HexPlayer::Black);
    state.current_player = HexPlayer::White;
    assert!(!state.play_move(1));
    state.current_player = HexPlayer::Black;
    assert!(!state.play_move(3));
    state.current_player = HexPlayer::White;
    assert!(!state.play_move(4));
    state.current_player = HexPlayer::Black;
    let won = state.play_move(6);
    assert!(won, "Black should have won connecting (0,0)-(1,0)-(2,0)");
    assert!(state.is_won(HexPlayer::Black));
    assert!(!state.is_won(HexPlayer::White));
}

#[test]
fn test_white_win_connection() {
    let mut state = HexState::<3>::new();
    state.current_player = HexPlayer::White;
    assert!(!state.play_move(0));
    state.current_player = HexPlayer::Black;
    assert!(!state.play_move(3));
    state.current_player = HexPlayer::White;
    assert!(!state.play_move(1));
    state.current_player = HexPlayer::Black;
    assert!(!state.play_move(4));
    state.current_player = HexPlayer::White;
    let won = state.play_move(2);
    assert!(won, "White should have won connecting (0,0)-(0,1)-(0,2)");
    assert!(state.is_won(HexPlayer::White));
    assert!(!state.is_won(HexPlayer::Black));
}

#[test]
fn test_pie_rule_legality_and_transposition() {
    let mut state = HexState::<5>::with_pie_rule(true);
    let mut legals = Vec::new();

    state.legal_actions(&mut legals);
    assert!(!legals.contains(&HexState::<5>::swap_action()));

    state.play_move(1);
    state.current_player = HexPlayer::White;
    assert_eq!(state.move_count, 1);

    state.legal_actions(&mut legals);
    assert!(legals.contains(&HexState::<5>::swap_action()));

    state.play_move(HexState::<5>::swap_action());
    assert_eq!(state.move_count, 2);
    assert_eq!(state.current_player, HexPlayer::Black);

    assert_eq!(state.board[1], None);
    assert_eq!(state.board[5], Some(HexPlayer::White));

    state.legal_actions(&mut legals);
    assert!(!legals.contains(&HexState::<5>::swap_action()));
}

#[test]
fn test_pie_rule_disabled_by_default() {
    let mut state = HexState::<5>::new();
    state.play_move(1);
    state.current_player = HexPlayer::White;

    let mut legals = Vec::new();
    state.legal_actions(&mut legals);
    assert!(!legals.contains(&HexState::<5>::swap_action()));
}

#[test]
fn test_str_to_coord_swap() {
    assert_eq!(HexState::<11>::str_to_coord("swap"), Some(121));
    assert_eq!(HexState::<11>::str_to_coord("SWAP"), Some(121));
    assert_eq!(HexState::<11>::str_to_coord("  Swap  "), Some(121));
    assert_eq!(HexState::<11>::coord_to_str(121), "swap");
}

#[test]
fn hex_agent_specs_parse() {
    assert_eq!(
        HexAgentSpec::parse("mcts:1000:3"),
        Ok(HexAgentSpec::MctsRollout { iters: 1000, rollouts: 3, c_puct: None })
    );
    assert_eq!(
        HexAgentSpec::parse("MCTS"),
        Ok(HexAgentSpec::MctsRollout { iters: 500, rollouts: 2, c_puct: None })
    );
    assert_eq!(
        HexAgentSpec::parse("rollout:10:1:2.5"),
        Ok(HexAgentSpec::MctsRollout { iters: 10, rollouts: 1, c_puct: Some("2.5".to_string()) })
    );
    assert_eq!(
        HexAgentSpec::parse("mcts-h:300"),
        Ok(HexAgentSpec::MctsHeuristic { iters: 300, c_puct: None })
    );
    assert_eq!(
        HexAgentSpec::parse("mcts-uniform:40:0.5"),
        Ok(HexAgentSpec::MctsUniform { iters: 40, c_puct: Some("0.5".to_string()) })
    );
    assert_eq!(HexAgentSpec::parse("h"), Ok(HexAgentSpec::Heuristic));
    assert_eq!(HexAgentSpec::parse("Rand"), Ok(HexAgentSpec::Random));
    assert_eq!(HexAgentSpec::parse("human"), Ok(HexAgentSpec::Human));
}

#[test]
fn hex_agent_spec_errors() {
    assert_eq!(
        HexAgentSpec::parse("mcts:abc"),
        Err("invalid iterations: invalid digit found in string".to_string())
    );
    assert_eq!(
        HexAgentSpec::parse("mcts:10:"),
        Err("invalid rollouts: cannot parse integer from empty string".to_string())
    );
    assert_eq!(
        HexAgentSpec::parse("mcts-h: 5"),
        Err("invalid iterations: invalid digit found in string".to_string())
    );
    assert_eq!(
        HexAgentSpec::parse("bogus:1"),
        Err("unknown agent spec 'bogus:1'. Supported: mcts, mcts-h, mcts-u, heuristic, random, human".to_string())
    );
}

#[test]
fn hex_agent_default_names() {
    assert_eq!(HexAgentSpec::parse("mcts:1000:2").unwrap().default_name(), "MCTS-Rollout(1000,r=2)");
    assert_eq!(HexAgentSpec::parse("mcts-h:300").unwrap().default_name(), "MCTS-Heuristic(300)");
    assert_eq!(HexAgentSpec::parse("mcts-u").unwrap().default_name(), "MCTS-Uniform(500)");
    assert_eq!(HexAgentSpec::Heuristic.default_name(), "Heuristic");
    assert_eq!(HexAgentSpec::Random.default_name(), "Random");
    assert_eq!(HexAgentSpec::Human.default_name(), "Human");
}

#[test]
fn full_boards_always_have_a_winner() {
    // Fill 5x5 boards in many different orders, ignoring wins along the way:
    // once every cell holds a stone, one of the players has joined its edges.
    for seed in 0..40usize {
        let mut s = HexState::<5>::new();
        let mut order: Vec<usize> = (0..25).collect();
        // A fixed, seed-dependent permutation.
        for i in 0..25 {
            let j = (i * 7 + seed * 13 + (seed * seed) % 11) % 25;
            order.swap(i, j);
        }
        for &cell in &order {
            s.play_move(cell);
            s.current_player = s.current_player.other();
        }
        assert!(s.board.iter().all(|c| c.is_some()));
        let black = s.is_won(HexPlayer::Black);
        let white = s.is_won(HexPlayer::White);
        assert!(black || white, "seed {seed}: nobody connected on a full board");
        assert!(!(black && white), "seed {seed}: both connected");
    }
}

#[test]
fn rollouts_count_only_black_wins() {
    // Black holds the bottom row, White the top row: no fill lets Black join
    // top and bottom.
    let mut s = HexState::<3>::new();
    for cell in [6, 0, 7, 1, 8, 2] {
        s.play_move(cell);
        s.current_player = s.current_player.other();
    }
    let e = RolloutEvaluator::<3>::new(12, 9);
    assert_eq!(e.black_rollout_wins(&s, &mut rand::thread_rng()), 0);

    // Black holds the middle column: every fill is a Black win.
    let mut t = HexState::<3>::new();
    for cell in [1, 0, 4, 2, 7, 3] {
        t.play_move(cell);
        t.current_player = t.current_player.other();
    }
    assert!(t.is_won(HexPlayer::Black));
    assert_eq!(e.black_rollout_wins(&t, &mut rand::thread_rng()), 12);
}


#[test]
fn find_compresses_only_the_path() {
    // 0 -> 1 -> 2 (root), 3 -> 2, 4 is its own root.
    let mut dsu: Vec<u16> = vec![1, 2, 2, 2, 4];
    let root = HexState::<2>::dsu_find(&mut dsu, 0);
    assert_eq!(root, 2);
    assert_eq!(dsu, vec![2, 2, 2, 2, 4]);
    let mut dsu2: Vec<u16> = vec![1, 2, 2, 1, 4];
    assert_eq!(HexState::<2>::dsu_find(&mut dsu2, 1), 2);
    // 0 and 3 are off the path from 1 and keep their parents.
    assert_eq!(dsu2, vec![1, 2, 2, 1, 4]);
}

#[test]
fn a_win_is_a_chain_across_after_a_swap() {
    let mut state = HexState::<3>::with_pie_rule(true);
    assert!(!state.play_move(1));
    state.current_player = HexPlayer::White;
    assert!(!state.play_move(9));
    assert_eq!(state.board[3], Some(HexPlayer::White));
    assert_eq!(state.board[1], None);
    assert_eq!(state.current_player, HexPlayer::Black);
    assert!(!state.play_move(0));
    state.current_player = HexPlayer::White;
    assert!(!state.play_move(4));
    state.current_player = HexPlayer::Black;
    assert!(!state.play_move(6));
    assert!(!state.is_won(HexPlayer::Black));
    state.current_player = HexPlayer::White;
    assert!(state.play_move(5));
    assert!(state.is_won(HexPlayer::White));
    assert!(!state.is_won(HexPlayer::Black));
}

#[test]
fn hex_agent_exploration_constant_must_be_a_number() {
    assert_eq!(
        HexAgentSpec::parse("mcts:100:2:abc"),
        Err("invalid c_puct: invalid float literal".to_string())
    );
    assert_eq!(
        HexAgentSpec::parse("mcts-h:10:"),
        Err("invalid c_puct: cannot parse float from empty string".to_string())
    );
    assert_eq!(
        HexAgentSpec::parse("mcts-u:10:1.2.3"),
        Err("invalid c_puct: invalid float literal".to_string())
    );
    assert_eq!(
        HexAgentSpec::parse("mcts:10:x:abc"),
        Err("invalid rollouts: invalid digit found in string".to_string())
    );
    assert_eq!(
        HexAgentSpec::parse("mcts-u:10:-INF"),
        Ok(HexAgentSpec::MctsUniform { iters: 10, c_puct: Some("-INF".to_string()) })
    );
    assert_eq!(
        HexAgentSpec::parse("mcts:7:1:.5e-3"),
        Ok(HexAgentSpec::MctsRollout { iters: 7, rollouts: 1, c_puct: Some(".5e-3".to_string()) })
    );
}

#[test]
fn numerals_are_those_the_std_parser_accepts() {
    let cases = [
        "", "0", "1.414", "+2", "-0.5", ".5", "5.", ".", "+", "-", "1e5", "1E+5", "2.5e-3", "1e", "1e+",
        "e5", "1.2.3", " 1", "1 ", "inf", "-Infinity", "NaN", "nan1", "infinit", "0x10", "1_000", "١",
        "12abc", "+.e1", "..", "1e5.0", "INFINITY", "+nan",
    ];
    for c in cases {
        let chars: Vec<char> = c.chars().collect();
        let std = c.parse::<f32>();
        assert_eq!(numeral_ok_exec(&chars), std.is_ok(), "acceptance of {c:?}");
        if let Err(e) = std {
            let msg: String = numeral_error_exec(&chars).into_iter().collect();
            assert_eq!(msg, e.to_string(), "message for {c:?}");
        }
    }
}
