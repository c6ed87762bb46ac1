use boardgames::sequence::agent::{parse_agent, try_parse_agent, SequenceAgentSpec};
use boardgames::sequence::board::{coord_to_index, detect_sequences, SequenceRecord, BOARD_CELLS};

#[test]
fn test_sequence_detection_horizontal_and_localized_equivalence() {
    let mut board: [Option<u8>; BOARD_CELLS] = [None; BOARD_CELLS];
    let mut locked_chips = [false; BOARD_CELLS];
    let mut seqs = Vec::new();

    for c in 1..=5 {
        board[coord_to_index(1, c)] = Some(0);
    }

    let detected_localized = detect_sequences(&board, 0, Some((1, 5)), &mut locked_chips, &mut seqs);
    assert_eq!(detected_localized, 1, "Should detect 1 horizontal sequence");
    assert_eq!(seqs.len(), 1);

    for c in 1..=5 {
        assert!(locked_chips[coord_to_index(1, c)], "Sequence chips must be locked");
    }

    let mut locked_full = [false; BOARD_CELLS];
    let mut seqs_full = Vec::new();
    let detected_full = detect_sequences(&board, 0, None, &mut locked_full, &mut seqs_full);
    assert_eq!(detected_full, 1);
    assert_eq!(locked_chips, locked_full);
    assert_eq!(seqs, seqs_full);
}

#[test]
fn test_sequence_detection_corner_sharing() {
    let mut board: [Option<u8>; BOARD_CELLS] = [None; BOARD_CELLS];
    let mut locked = [false; BOARD_CELLS];
    let mut seqs = Vec::new();

    for c in 1..=4 {
        board[coord_to_index(0, c)] = Some(1);
    }

    let detected = detect_sequences(&board, 1, Some((0, 4)), &mut locked, &mut seqs);
    assert_eq!(detected, 1, "Sequence should form using corner (0, 0)");
    assert!(!locked[0], "Corner spaces are never locked to one team");
    for c in 1..=4 {
        assert!(locked[coord_to_index(0, c)], "Non-corner chips must be locked");
    }
}

#[test]
fn test_sequence_detection_nine_in_a_row_double_sequence() {
    let mut board: [Option<u8>; BOARD_CELLS] = [None; BOARD_CELLS];
    let mut locked = [false; BOARD_CELLS];
    let mut seqs = Vec::new();

    for c in 1..=8 {
        board[coord_to_index(2, c)] = Some(0);
        detect_sequences(&board, 0, Some((2, c)), &mut locked, &mut seqs);
    }
    assert_eq!(seqs.len(), 1, "First sequence forms at 5 chips");

    board[coord_to_index(2, 9)] = Some(0);
    let detected = detect_sequences(&board, 0, Some((2, 9)), &mut locked, &mut seqs);
    assert_eq!(detected, 1, "9-in-a-row should form second sequence sharing chip 5");
    assert_eq!(seqs.len(), 2);
}

#[test]
fn test_sequence_detection_intersection_limit() {
    let mut board: [Option<u8>; BOARD_CELLS] = [None; BOARD_CELLS];
    let mut locked = [false; BOARD_CELLS];
    let mut seqs = Vec::new();

    for c in 1..=5 {
        board[coord_to_index(4, c)] = Some(0);
    }
    assert_eq!(detect_sequences(&board, 0, Some((4, 5)), &mut locked, &mut seqs), 1);

    for r in 2..=6 {
        board[coord_to_index(r, 3)] = Some(0);
    }
    assert_eq!(detect_sequences(&board, 0, Some((6, 3)), &mut locked, &mut seqs), 1);
    assert_eq!(seqs.len(), 2, "2 sequences sharing 1 non-corner chip are valid");

    let cand = SequenceRecord::new(0, [
        coord_to_index(4, 2) as u8,
        coord_to_index(4, 3) as u8,
        coord_to_index(5, 4) as u8,
        coord_to_index(6, 5) as u8,
        coord_to_index(7, 6) as u8,
    ]);
    assert_eq!(cand.shared_non_corner_count(&seqs[0]), 2);
}

#[test]
fn sequence_agent_specs_parse() {
    use_parse();
}

fn use_parse() {
    assert_eq!(parse_agent("human"), SequenceAgentSpec::Human);
    assert_eq!(parse_agent("Random"), SequenceAgentSpec::Random);
    assert_eq!(parse_agent("HEURISTIC"), SequenceAgentSpec::Heuristic);
    assert_eq!(parse_agent("mcts"), SequenceAgentSpec::Mcts { iters: 200 });
    assert_eq!(parse_agent("mcts:450"), SequenceAgentSpec::Mcts { iters: 450 });
    assert_eq!(parse_agent("mcts:abc"), SequenceAgentSpec::Mcts { iters: 200 });
    assert_eq!(parse_agent("is-mcts:300:5"), SequenceAgentSpec::IsMcts { iters: 300, dets: 5 });
    assert_eq!(parse_agent("is-mcts:120"), SequenceAgentSpec::IsMcts { iters: 120, dets: 5 });
    assert_eq!(parse_agent("macro-heuristic:80:3"), SequenceAgentSpec::MacroHeuristic { iters: 80, dets: 3 });
    assert_eq!(parse_agent("macro-random::9"), SequenceAgentSpec::MacroRandom { iters: 300, dets: 9 });
    assert_eq!(try_parse_agent("mcts: 7"), Some(SequenceAgentSpec::Mcts { iters: 200 }));
    assert_eq!(try_parse_agent("bogus"), None);
    assert_eq!(try_parse_agent(" human"), None);
}
