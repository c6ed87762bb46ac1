use boardgames::connect4::dynamics::{MacroConnect4Dynamics, RandomOpponent, TacticalOpponent};
use boardgames::connect4::game::{Connect4State, Player};
use boardgames::connect4::agent::Connect4AgentSpec as Spec;
use boardgames::connect4::tournament::Connect4AgentSpec;

#[test]
fn test_parse_all_agent_specs() {
    assert_eq!(Connect4AgentSpec::parse("random", 200, 3).unwrap(), Connect4AgentSpec::Random);
    assert_eq!(Connect4AgentSpec::parse("tactical", 200, 3).unwrap(), Connect4AgentSpec::Tactical);
    assert_eq!(
        Connect4AgentSpec::parse("mcts", 200, 3).unwrap(),
        Connect4AgentSpec::Mcts { iters: 200, rollouts: 3 }
    );
    assert_eq!(
        Connect4AgentSpec::parse("mcts:500:5", 200, 3).unwrap(),
        Connect4AgentSpec::Mcts { iters: 500, rollouts: 5 }
    );
    assert_eq!(
        Connect4AgentSpec::parse("round-adversarial:100:0", 200, 3).unwrap(),
        Connect4AgentSpec::RoundAdversarial { iters: 100, rollouts: 0 }
    );
    assert_eq!(
        Connect4AgentSpec::parse("round-tactical:150:2", 200, 3).unwrap(),
        Connect4AgentSpec::RoundTactical { iters: 150, rollouts: 2 }
    );
    assert_eq!(
        Connect4AgentSpec::parse("macro-tactical:80", 200, 3).unwrap(),
        Connect4AgentSpec::MacroTactical { iters: 80, rollouts: 3 }
    );
}

#[test]
fn connect4_spec_errors_and_names() {
    assert_eq!(
        Connect4AgentSpec::parse("mcts:abc", 200, 3).unwrap_err(),
        "Invalid iteration count in 'mcts:abc'"
    );
    assert_eq!(
        Connect4AgentSpec::parse("mcts:10:zz", 200, 3).unwrap_err(),
        "Invalid rollouts count in 'mcts:10:zz'"
    );
    assert!(Connect4AgentSpec::parse("nope", 200, 3).unwrap_err().starts_with("Unknown agent type 'nope'. Supported:"));
    assert_eq!(Connect4AgentSpec::parse(" ROUND-RAND : 7 ", 1, 2).unwrap(), Connect4AgentSpec::RoundRandom { iters: 7, rollouts: 2 });
    assert_eq!(Connect4AgentSpec::Mcts { iters: 500, rollouts: 0 }.display_name(), "MCTS(500,uniform)");
    assert_eq!(Connect4AgentSpec::RoundAdversarial { iters: 200, rollouts: 3 }.display_name(), "Round-Adv(200,rollout)");
    assert_eq!(Connect4AgentSpec::Tactical.display_name(), "Tactical");
}

#[test]
fn connect4_agent_module_specs() {
    assert_eq!(Spec::parse("round-adv:9", 1, 4).unwrap(), Spec::Mcts { iters: 9, rollouts: 4 });
    assert_eq!(Spec::parse("tactical-mcts", 1, 4).unwrap(), Spec::MacroTactical { iters: 1, rollouts: 4 });
    assert_eq!(Spec::parse("random-mcts:+3:0", 1, 4).unwrap(), Spec::MacroRandom { iters: 3, rollouts: 0 });
    assert_eq!(Spec::MacroRandom { iters: 3, rollouts: 0 }.display_name(), "Macro-Rand(3,uniform)");
}

#[test]
fn macro_rounds_answer_with_the_opponent_policy() {
    let dynamics = MacroConnect4Dynamics::<TacticalOpponent, 6, 7>::new(TacticalOpponent, Player::Red);
    assert_eq!(dynamics.primary_player, Player::Red);
    let mut s = Connect4State::<6, 7>::new();
    let out = dynamics.step(&mut s, 0);
    // Red plays the left column; the tactical reply is the centre.
    assert_eq!(s.board[5][0], Some(Player::Red));
    assert_eq!(s.board[5][3], Some(Player::Yellow));
    assert!(!out.terminated);
    assert_eq!(out.winner, None);
    assert_eq!(s.current_player, Player::Red);

    // A winning move ends the round before any reply.
    let mut s = Connect4State::<6, 7>::new();
    for col in [0, 6, 1, 6, 2, 5] {
        s.drop_piece(col).unwrap();
        s.current_player = s.current_player.other();
    }
    let out = dynamics.step(&mut s, 3);
    assert!(out.terminated);
    assert_eq!(out.winner, Some(Player::Red));
    assert_eq!(s.board[4][6], Some(Player::Yellow));
    assert_eq!(s.board[4][5], None);

    let random = MacroConnect4Dynamics::<RandomOpponent, 6, 7>::new(RandomOpponent::new(), Player::Yellow);
    let mut s = Connect4State::<6, 7>::new();
    let out = random.step(&mut s, 3);
    assert!(!out.terminated);
    let filled = (0..7).filter(|&c| s.board[5][c].is_some()).count();
    assert!(filled == 2 || s.board[4][3].is_some());
}
