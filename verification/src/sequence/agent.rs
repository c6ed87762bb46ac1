//! Sequence players.
use crate::random::random_index;
use crate::sequence::game::{hand_moves, known_cards, SequenceAction, SequenceState};
use crate::text::{chars_eq, lowercase, lowercase_chars, owned, parse_usize, parse_usize_spec, parts_view, split, split_parts, chars_of};
use vstd::prelude::*;

verus! {

/// The moves of the player to move in `st` (see `SequenceState::legal_actions`).
pub open spec fn moves_of(st: SequenceState) -> Seq<SequenceAction> {
    if st.terminated {
        Seq::empty()
    } else {
        hand_moves(
            st.board@,
            st.locked_chips@,
            st.config.spec_team(st.current_player as int),
            st.hands@[st.current_player as int]@,
            st.hands@[st.current_player as int]@.len() as int,
        )
    }
}

/// Whether the player to move can be asked for its moves.
pub open spec fn can_list_moves(st: SequenceState) -> bool {
    &&& st.config.num_teams > 0
    &&& st.current_player < st.hands@.len()
    &&& known_cards(st.hands@[st.current_player as int]@)
}

/// A human player, known by name.
pub struct HumanAgent {
    name: String,
}

impl HumanAgent {
    pub closed spec fn spec_name(&self) -> Seq<char> {
        self.name@
    }

    /// A human player called `name`.
    pub fn new(name: &str) -> (a: Self)
        ensures
            a.spec_name() == name@,
    {
        HumanAgent { name: owned(name) }
    }

    /// The player's name.
    pub fn name(&self) -> (n: &str)
        ensures
            n@ == self.spec_name(),
    {
        self.name.as_str()
    }
}

/// A player choosing uniformly among the legal moves.
pub struct RandomAgent {
    name: String,
}

/// One of the legal moves of `state`, at random.
pub fn random_move(state: &SequenceState) -> (a: SequenceAction)
    requires
        can_list_moves(*state),
        moves_of(*state).len() > 0,
    ensures
        moves_of(*state).contains(a),
{
    let mut legal: Vec<SequenceAction> = Vec::new();
    state.legal_actions(&mut legal);
    let i = random_index(legal.len());
    assert(legal@[i as int] == moves_of(*state)[i as int]);
    legal[i]
}

impl RandomAgent {
    pub closed spec fn spec_name(&self) -> Seq<char> {
        self.name@
    }

    /// A random player called `name`.
    pub fn new(name: &str) -> (a: Self)
        ensures
            a.spec_name() == name@,
    {
        RandomAgent { name: owned(name) }
    }

    /// The player's name.
    pub fn name(&self) -> (n: &str)
        ensures
            n@ == self.spec_name(),
    {
        self.name.as_str()
    }

    /// One of the legal moves of `state`, at random.
    pub fn select_action(&mut self, state: &SequenceState) -> (a: SequenceAction)
        requires
            can_list_moves(*state),
            moves_of(*state).len() > 0,
        ensures
            moves_of(*state).contains(a),
    {
        random_move(state)
    }
}

/// A Sequence player as read from the command line.
#[derive(Debug, Clone, Copy, PartialEq, Eq)]
pub enum SequenceAgentSpec {
    /// A person at the terminal: `human`.
    Human,
    /// Uniformly random moves: `random`.
    Random,
    /// One-move look-ahead: `heuristic`.
    Heuristic,
    /// Tree search: `mcts[:iters]`.
    Mcts { iters: usize },
    /// Search over sampled deals: `is-mcts[:iters[:dets]]`.
    IsMcts { iters: usize, dets: usize },
    /// Search against a heuristic opponent model: `macro-heuristic[:iters[:dets]]`.
    MacroHeuristic { iters: usize, dets: usize },
    /// Search against a random opponent model: `macro-random[:iters[:dets]]`.
    MacroRandom { iters: usize, dets: usize },
}

/// The kind a lower-case name stands for: 0 human, 1 random, 2 heuristic,
/// 3 mcts, 4 is-mcts, 5 macro-heuristic, 6 macro-random, -1 unknown.
pub open spec fn sequence_kind(k: Seq<char>) -> int {
    if k == "human"@ {
        0
    } else if k == "random"@ {
        1
    } else if k == "heuristic"@ {
        2
    } else if k == "mcts"@ {
        3
    } else if k == "is-mcts"@ {
        4
    } else if k == "macro-heuristic"@ {
        5
    } else if k == "macro-random"@ {
        6
    } else {
        -1
    }
}

/// Field `idx` of `parts` read as a count; `default` when there is no such
/// field or it is not a count.
pub open spec fn count_or(parts: Seq<Seq<char>>, idx: int, default: usize) -> usize {
    if parts.len() > idx {
        match parse_usize_spec(parts[idx]) {
            Some(v) => v,
            None => default,
        }
    } else {
        default
    }
}

/// The kind of the agent written `s`: its lower-cased first `:`-field.
pub open spec fn sequence_key(s: Seq<char>) -> int {
    sequence_kind(lowercase(split(s, ':')[0]))
}

/// The agent written `s` (of a known kind): iterations from field 1 (200
/// for `mcts`, else 300), determinizations from field 2 (default 5).
pub open spec fn sequence_agent(s: Seq<char>) -> SequenceAgentSpec {
    let parts = split(s, ':');
    let k = sequence_key(s);
    if k == 0 {
        SequenceAgentSpec::Human
    } else if k == 1 {
        SequenceAgentSpec::Random
    } else if k == 2 {
        SequenceAgentSpec::Heuristic
    } else if k == 3 {
        SequenceAgentSpec::Mcts { iters: count_or(parts, 1, 200) }
    } else if k == 4 {
        SequenceAgentSpec::IsMcts { iters: count_or(parts, 1, 300), dets: count_or(parts, 2, 5) }
    } else if k == 5 {
        SequenceAgentSpec::MacroHeuristic { iters: count_or(parts, 1, 300), dets: count_or(parts, 2, 5) }
    } else {
        SequenceAgentSpec::MacroRandom { iters: count_or(parts, 1, 300), dets: count_or(parts, 2, 5) }
    }
}

/// The kind a lower-case name stands for (see `sequence_kind`).
fn sequence_kind_exec(k: &[char]) -> (r: i8)
    ensures
        r as int == sequence_kind(k@),
{
    if chars_eq(k, "human") {
        0
    } else if chars_eq(k, "random") {
        1
    } else if chars_eq(k, "heuristic") {
        2
    } else if chars_eq(k, "mcts") {
        3
    } else if chars_eq(k, "is-mcts") {
        4
    } else if chars_eq(k, "macro-heuristic") {
        5
    } else if chars_eq(k, "macro-random") {
        6
    } else {
        -1
    }
}

/// Field `idx` of `parts` read as a count (see `count_or`).
fn count_or_exec(parts: &Vec<Vec<char>>, idx: usize, default: usize) -> (v: usize)
    ensures
        v == count_or(parts_view(parts@), idx as int, default),
{
    if parts.len() > idx {
        match parse_usize(parts[idx].as_slice()) {
            Some(v) => v,
            None => default,
        }
    } else {
        default
    }
}

/// Reads a player from `kind[:iters[:dets]]`, the kind one of `human`,
/// `random`, `heuristic`, `mcts`, `is-mcts`, `macro-heuristic` and
/// `macro-random` after lower-casing; a count that is missing or not a
/// number takes its default.
pub fn parse_agent(spec: &str) -> (a: SequenceAgentSpec)
    requires
        sequence_key(spec@) >= 0,
    ensures
        a == sequence_agent(spec@),
{
    let all = chars_of(spec);
    let parts = split_parts(all.as_slice(), ':');
    let ghost pv = parts_view(parts@);
    assert(pv[0] == parts@[0]@);
    let key = lowercase_chars(parts[0].as_slice());
    let k = sequence_kind_exec(key.as_slice());
    if k == 0 {
        SequenceAgentSpec::Human
    } else if k == 1 {
        SequenceAgentSpec::Random
    } else if k == 2 {
        SequenceAgentSpec::Heuristic
    } else if k == 3 {
        SequenceAgentSpec::Mcts { iters: count_or_exec(&parts, 1, 200) }
    } else if k == 4 {
        SequenceAgentSpec::IsMcts { iters: count_or_exec(&parts, 1, 300), dets: count_or_exec(&parts, 2, 5) }
    } else if k == 5 {
        SequenceAgentSpec::MacroHeuristic { iters: count_or_exec(&parts, 1, 300), dets: count_or_exec(&parts, 2, 5) }
    } else {
        SequenceAgentSpec::MacroRandom { iters: count_or_exec(&parts, 1, 300), dets: count_or_exec(&parts, 2, 5) }
    }
}

/// Reads a player as `parse_agent` does; `None` for an unknown kind.
pub fn try_parse_agent(spec: &str) -> (a: Option<SequenceAgentSpec>)
    ensures
        a is Some <==> sequence_key(spec@) >= 0,
        a is Some ==> a->0 == sequence_agent(spec@),
{
    let all = chars_of(spec);
    let parts = split_parts(all.as_slice(), ':');
    let ghost pv = parts_view(parts@);
    assert(pv[0] == parts@[0]@);
    let key = lowercase_chars(parts[0].as_slice());
    if sequence_kind_exec(key.as_slice()) < 0 {
        None
    } else {
        Some(parse_agent(spec))
    }
}

} // verus!
