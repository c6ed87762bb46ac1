use boardgames::blokus::agent::{Agent, HeuristicAgent};
use boardgames::blokus::game::{BlokusAction, BlokusClassicState, BlokusDuoState};
use boardgames::blokus::pieces::{piece_size, registry, NUM_PIECES, TOTAL_SQUARES_PER_PLAYER};
use boardgames::blokus::tournament::AgentSpec;

#[test]
fn test_piece_registry_and_canonical_orientations() {
    let reg = registry();
    let mut total_orientations = 0;
    let mut total_squares = 0;

    for i in 0..NUM_PIECES {
        let size = piece_size(i as u8);
        total_squares += size as usize;
        let orientations = reg.orientations_of(i);
        assert!(!orientations.is_empty(), "Piece {i} must have orientations");
        assert!(orientations.len() <= 8, "Orientation count must not exceed 8");

        for shape in orientations {
            assert_eq!(shape.num_squares, size);
            assert!(shape.height >= 1 && shape.height <= 5);
            assert!(shape.width >= 1 && shape.width <= 5);
            let min_r = shape.active_squares().iter().map(|&(r, _)| r).min().unwrap();
            let min_c = shape.active_squares().iter().map(|&(_, c)| c).min().unwrap();
            assert_eq!(min_r, 0);
            assert_eq!(min_c, 0);
        }
        total_orientations += orientations.len();
    }

    assert_eq!(total_squares, TOTAL_SQUARES_PER_PLAYER);
    assert_eq!(total_orientations, 91, "Expected exactly 91 canonical polyomino orientations");
}

#[test]
fn test_start_square_rule_classic_and_duo() {
    let mut classic = BlokusClassicState::new();
    assert_eq!(classic.start_square(0), (0, 0));
    assert_eq!(classic.start_square(1), (0, 19));
    assert_eq!(classic.start_square(2), (19, 19));
    assert_eq!(classic.start_square(3), (19, 0));

    let invalid_first_move = BlokusAction::Place { piece_id: 0, orientation: 0, row: 5, col: 5 };
    assert!(classic.apply_action(&invalid_first_move).is_err());

    let valid_first_move = BlokusAction::Place { piece_id: 0, orientation: 0, row: 0, col: 0 };
    assert!(classic.apply_action(&valid_first_move).is_ok());
    assert_eq!(classic.board[0][0], 0);

    let duo = BlokusDuoState::new();
    assert_eq!(duo.start_square(0), (4, 4));
    assert_eq!(duo.start_square(1), (9, 9));
}

#[test]
fn test_blokus_adjacency_rules() {
    let mut state = BlokusDuoState::new();
    let m0 = BlokusAction::Place { piece_id: 1, orientation: 0, row: 4, col: 4 };
    assert!(state.apply_action(&m0).is_ok());

    let m1 = BlokusAction::Place { piece_id: 1, orientation: 0, row: 9, col: 9 };
    assert!(state.apply_action(&m1).is_ok());

    let illegal_edge_touch = BlokusAction::Place { piece_id: 0, orientation: 0, row: 4, col: 3 };
    assert!(state.apply_action(&illegal_edge_touch).is_err());

    let illegal_edge_touch_top = BlokusAction::Place { piece_id: 0, orientation: 0, row: 3, col: 4 };
    assert!(state.apply_action(&illegal_edge_touch_top).is_err());

    let legal_corner_touch = BlokusAction::Place { piece_id: 0, orientation: 0, row: 3, col: 3 };
    assert!(state.apply_action(&legal_corner_touch).is_ok());
    assert_eq!(state.board[3][3], 0);
}

#[test]
fn test_legal_actions_generation_and_free_corners() {
    let mut state = BlokusClassicState::new();
    let mut actions = Vec::new();
    state.legal_actions(&mut actions);

    assert!(!actions.is_empty());
    for act in &actions {
        match act {
            BlokusAction::Place { piece_id, orientation, row, col } => {
                assert!(state.is_valid_placement(0, *piece_id, *orientation, *row, *col));
            }
            BlokusAction::Pass => panic!("Pass should not be legal on first turn"),
        }
    }

    state
        .apply_action(&BlokusAction::Place { piece_id: 0, orientation: 0, row: 0, col: 0 })
        .unwrap();

    let mut corners = Vec::new();
    state.find_valid_corners(0, &mut corners);
    assert_eq!(corners, vec![(1, 1)]);
}

#[test]
fn test_pass_mechanics_and_skip_turn() {
    let mut state = BlokusClassicState::new();
    assert_eq!(state.current_player, 0);

    state.apply_action(&BlokusAction::Pass).unwrap();
    assert_eq!(state.current_player, 1);
    assert!(state.passed[0]);

    state.apply_action(&BlokusAction::Pass).unwrap();
    assert_eq!(state.current_player, 2);
    assert!(state.passed[1]);

    state.apply_action(&BlokusAction::Pass).unwrap();
    assert_eq!(state.current_player, 3);
    assert!(state.passed[2]);

    state.apply_action(&BlokusAction::Pass).unwrap();
    assert!(state.is_terminal());
}

#[test]
fn test_scoring_rules_and_bonuses() {
    let mut state = BlokusClassicState::new();
    assert_eq!(state.unplaced_squares(0), 89);
    assert_eq!(state.score(0), -89);

    state.remaining_pieces[0] = 1 << 0;
    assert_eq!(state.unplaced_squares(0), 1);
    assert_eq!(state.score(0), -1);

    state.remaining_pieces[0] = 0;
    state.last_piece[0] = Some(0);
    assert_eq!(state.score(0), 20);

    state.last_piece[0] = Some(1);
    assert_eq!(state.score(0), 15);
}

#[test]
fn test_parse_blokus_specs() {
    assert!(matches!(AgentSpec::parse("random", 100).unwrap(), AgentSpec::Random));
    assert!(matches!(AgentSpec::parse("heuristic", 100).unwrap(), AgentSpec::Heuristic));
    assert!(matches!(AgentSpec::parse("mcts:50", 100).unwrap(), AgentSpec::Mcts { iters: 50 }));
    assert!(matches!(
        AgentSpec::parse("mcts-hu:80", 100).unwrap(),
        AgentSpec::MctsHeuristicUtility { iters: 80 }
    ));
    assert!(matches!(
        AgentSpec::parse("mcts-hr:100:2:15", 100).unwrap(),
        AgentSpec::MctsHeuristicRollout { iters: 100, num_rollouts: 2, max_depth: 15 }
    ));
    assert!(matches!(
        AgentSpec::parse("mcts-rollout:120:3:20", 100).unwrap(),
        AgentSpec::MctsRollout { iters: 120, num_rollouts: 3, max_depth: 20 }
    ));
    assert!(matches!(AgentSpec::parse("mcts-u:40", 100).unwrap(), AgentSpec::MctsUniform { iters: 40 }));
}

#[test]
fn blokus_spec_errors_and_names() {
    assert_eq!(AgentSpec::parse("  MCTS-HR ", 7).unwrap(), AgentSpec::MctsHeuristicRollout {
        iters: 7,
        num_rollouts: 2,
        max_depth: 20
    });
    assert_eq!(AgentSpec::parse("mcts:x", 7).unwrap_err(), "Invalid iterations in 'mcts:x'");
    assert_eq!(
        AgentSpec::parse("hr:5:y", 7).unwrap_err(),
        "Invalid rollouts count in 'hr:5:y'"
    );
    assert_eq!(
        AgentSpec::parse("hr:5:1:-3", 7).unwrap_err(),
        "Invalid rollout depth in 'hr:5:1:-3'"
    );
    assert!(AgentSpec::parse("Bogus", 7).unwrap_err().starts_with("Unknown agent type 'bogus'. Expected"));
    assert_eq!(AgentSpec::MctsHeuristicRollout { iters: 100, num_rollouts: 2, max_depth: 15 }.display_name(), "MCTS-HR(100,r=2,d=15)");
    assert_eq!(AgentSpec::MctsUniform { iters: 40 }.display_name(), "MCTS-Uniform(40)");
    assert_eq!(AgentSpec::Random.display_name(), "Random");
}

#[test]
fn best_of_sample_takes_first_highest_score() {
    let s = BlokusDuoState::new();
    let mut legal = Vec::new();
    s.legal_actions(&mut legal);
    let mono = legal.iter().position(|a| matches!(a, BlokusAction::Place { piece_id: 0, .. })).unwrap();
    let big = legal.iter().position(|a| matches!(a, BlokusAction::Place { piece_id: 20, .. })).unwrap();
    // Nothing sampled: the first listed move.
    assert_eq!(s.best_of_sample(&legal, &[], 0), legal[0]);
    // The larger piece wins whatever the order of the sample.
    assert_eq!(s.best_of_sample(&legal, &[mono, big], 0), legal[big]);
    assert_eq!(s.best_of_sample(&legal, &[big, mono, mono], 0), legal[big]);
    // A single sample is the answer.
    assert_eq!(s.best_of_sample(&legal, &[mono], 0), legal[mono]);
    // A pass loses to any placement.
    let moves = vec![BlokusAction::Pass, legal[mono]];
    assert_eq!(s.best_of_sample(&moves, &[0, 1], 0), legal[mono]);
    assert_eq!(s.best_of_sample(&moves, &[0, 0], 0), BlokusAction::Pass);
}

#[test]
fn playout_move_follows_its_draws() {
    let s = BlokusDuoState::new();
    let mut legal = Vec::new();
    s.legal_actions(&mut legal);
    let mono = legal.iter().position(|a| matches!(a, BlokusAction::Place { piece_id: 0, .. })).unwrap();
    let big = legal.iter().position(|a| matches!(a, BlokusAction::Place { piece_id: 20, .. })).unwrap();
    // Exploring plays the drawn move, however small.
    assert_eq!(s.playout_move(&legal, true, &[mono]), legal[mono]);
    assert_eq!(s.playout_move(&legal, true, &[5]), legal[5]);
    // A single listed move is played without sampling.
    let only = [legal[3]];
    assert_eq!(s.playout_move(&only, false, &[0]), legal[3]);
    // Otherwise the best of the sampled moves, the first on a tie.
    assert_eq!(s.playout_move(&legal, false, &[mono, big, mono]), legal[big]);
    assert_eq!(s.playout_move(&legal, false, &[mono, mono]), legal[mono]);
    let moves = vec![BlokusAction::Pass, legal[mono]];
    assert_eq!(s.playout_move(&moves, false, &[0, 1]), legal[mono]);
    assert_eq!(s.playout_move(&moves, true, &[0]), BlokusAction::Pass);
}

#[test]
fn playout_makes_legal_moves_up_to_depth() {
    let s = BlokusDuoState::new();
    // No moves asked for: the position is returned as it is.
    let same = s.heuristic_playout(0, &[]);
    assert_eq!(same.move_count, 0);
    assert_eq!(same.board, s.board);
    // Four greedy moves: each places a piece, two per player.
    let end = s.heuristic_playout(4, &[false; 4]);
    assert_eq!(end.move_count, 4);
    assert_eq!(end.current_player, 0);
    let placed: usize = (0..2).map(|p| 89 - end.unplaced_squares(p) as usize).sum();
    assert!(placed >= 4);
    // Random moves too.
    let end = s.heuristic_playout(6, &[true; 6]);
    assert_eq!(end.move_count, 6);
    // A playout long enough ends the game.
    let done = s.heuristic_playout(500, &[true; 500]);
    assert!(done.is_terminal());
}

#[test]
fn heuristic_agent_plays_the_best_scoring_move() {
    let s = BlokusDuoState::new();
    let mut agent = HeuristicAgent::new("Greedy");
    assert_eq!(Agent::<14, 2>::name(&agent), "Greedy");
    let a = agent.select_action(&s);
    let mut legal = Vec::new();
    s.legal_actions(&mut legal);
    assert!(legal.contains(&a));
    let best = legal.iter().map(|b| s.move_score(b, 0)).max().unwrap();
    assert_eq!(s.move_score(&a, 0), best);
    // The first listed move among the best ones.
    let first = legal.iter().find(|b| s.move_score(b, 0) == best).copied().unwrap();
    assert_eq!(a, first);
    assert!(matches!(a, BlokusAction::Place { .. }));
}

#[test]
fn random_agent_plays_a_listed_move_and_keeps_its_name() {
    let s = BlokusDuoState::new();
    let mut agent = boardgames::blokus::agent::RandomAgent::new("Rand");
    assert_eq!(Agent::<14, 2>::name(&agent), "Rand");
    let mut legal = Vec::new();
    s.legal_actions(&mut legal);
    for _ in 0..10 {
        let a = agent.select_action(&s);
        assert!(legal.contains(&a));
    }
}

#[test]
fn legal_actions_list_each_move_once() {
    let mut s = BlokusClassicState::new();
    for _ in 0..3 {
        let mut legal = Vec::new();
        s.legal_actions(&mut legal);
        for (i, a) in legal.iter().enumerate() {
            assert!(!legal[i + 1..].contains(a), "listed twice: {}", a.debug_string());
        }
        let a = legal[0];
        s.apply_action(&a).unwrap();
    }
}

#[test]
fn legal_actions_come_in_piece_and_orientation_order() {
    let s = BlokusDuoState::new();
    let mut legal = Vec::new();
    s.legal_actions(&mut legal);
    assert_eq!(legal[0], BlokusAction::Place { piece_id: 0, orientation: 0, row: 4, col: 4 });
    let keys: Vec<(u8, u8)> = legal
        .iter()
        .map(|a| match a {
            BlokusAction::Place { piece_id, orientation, .. } => (*piece_id, *orientation),
            BlokusAction::Pass => panic!("no pass expected"),
        })
        .collect();
    for w in keys.windows(2) {
        assert!(w[0] <= w[1]);
    }
}
