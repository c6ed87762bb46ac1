//! Agent descriptions for Connect 4 tournaments, read from `kind[:iters[:rollouts]]`.
use crate::connect4::agent::{eval_label, labeled_name};
use crate::text::{chars_eq, field_or, field_or_exec, head_key, owned, parts_view, quoted, split, split_head, surround};
use vstd::prelude::*;

verus! {

/// A Connect 4 agent for a tournament.
#[derive(Debug, Clone, PartialEq, Eq)]
pub enum Connect4AgentSpec {
    /// Uniformly random legal moves.
    Random,
    /// Greedy tactics: win now, block, prefer the centre.
    Tactical,
    /// Alternating-turn tree search.
    Mcts { iters: usize, rollouts: usize },
    /// Round-based search with an adversarial opponent in the tree.
    RoundAdversarial { iters: usize, rollouts: usize },
    /// Round-based search with a tactical opponent in the tree.
    RoundTactical { iters: usize, rollouts: usize },
    /// Round-based search with a random opponent in the tree.
    RoundRandom { iters: usize, rollouts: usize },
    /// Macro-action search against a tactical opponent.
    MacroTactical { iters: usize, rollouts: usize },
    /// Macro-action search against a random opponent.
    MacroRandom { iters: usize, rollouts: usize },
}

/// The agent kind a lower-case name stands for: 0 random, 1 tactical,
/// 2 to 7 the searching kinds in declaration order, -1 unknown.
pub open spec fn kind_of(k: Seq<char>) -> int {
    if k == "random"@ || k == "rand"@ {
        0
    } else if k == "tactical"@ || k == "heur"@ || k == "heuristic"@ {
        1
    } else if k == "mcts"@ || k == "mcts-sequential"@ || k == "sequential"@ {
        2
    } else if k == "round-adversarial"@ || k == "round-mcts-adversarial"@ || k == "round-adv"@ || k == "round"@ {
        3
    } else if k == "round-tactical"@ || k == "round-mcts-tactical"@ || k == "round-tact"@ {
        4
    } else if k == "round-random"@ || k == "round-mcts-random"@ || k == "round-rand"@ {
        5
    } else if k == "macro-tactical"@ || k == "macro-mcts-tactical"@ || k == "macro-tact"@ || k == "macro"@ {
        6
    } else if k == "macro-random"@ || k == "macro-mcts-random"@ || k == "macro-rand"@ {
        7
    } else {
        -1
    }
}

/// The searching agent of kind `k` (2 to 7).
pub open spec fn searcher(k: int, iters: usize, rollouts: usize) -> Connect4AgentSpec {
    if k == 2 {
        Connect4AgentSpec::Mcts { iters, rollouts }
    } else if k == 3 {
        Connect4AgentSpec::RoundAdversarial { iters, rollouts }
    } else if k == 4 {
        Connect4AgentSpec::RoundTactical { iters, rollouts }
    } else if k == 5 {
        Connect4AgentSpec::RoundRandom { iters, rollouts }
    } else if k == 6 {
        Connect4AgentSpec::MacroTactical { iters, rollouts }
    } else {
        Connect4AgentSpec::MacroRandom { iters, rollouts }
    }
}

/// The text after the unknown name in the error for an unknown kind.
pub open spec fn unknown_suffix() -> Seq<char> {
    "'. Supported: random, tactical, mcts[:iters[:rollouts]], round-adversarial[:iters[:rollouts]], round-tactical[:iters[:rollouts]], round-random[:iters[:rollouts]], macro-tactical[:iters[:rollouts]], macro-random[:iters[:rollouts]]"@
}

/// The outcome of reading `s`, whose `:`-separated fields are `parts` and
/// whose lower-cased, trimmed first field is `key`: field 1 gives the
/// iterations (default `default_iters`), field 2 the rollouts (default
/// `default_rollouts`).
pub open spec fn parse_spec(
    s: Seq<char>,
    parts: Seq<Seq<char>>,
    key: Seq<char>,
    default_iters: usize,
    default_rollouts: usize,
) -> Result<Connect4AgentSpec, Seq<char>> {
    let k = kind_of(key);
    if k == 0 {
        Ok(Connect4AgentSpec::Random)
    } else if k == 1 {
        Ok(Connect4AgentSpec::Tactical)
    } else if k >= 2 {
        match field_or(parts, 1, default_iters) {
            None => Err("Invalid iteration count in '"@ + s + "'"@),
            Some(iters) => match field_or(parts, 2, default_rollouts) {
                None => Err("Invalid rollouts count in '"@ + s + "'"@),
                Some(rollouts) => Ok(searcher(k, iters, rollouts)),
            },
        }
    } else {
        Err("Unknown agent type '"@ + key + unknown_suffix())
    }
}

/// A result with the error as plain characters.
pub open spec fn res_view(r: Result<Connect4AgentSpec, String>) -> Result<Connect4AgentSpec, Seq<char>> {
    match r {
        Ok(v) => Ok(v),
        Err(e) => Err(e@),
    }
}

/// The kind a lower-case name stands for (see `kind_of`).
fn kind_exec(k: &[char]) -> (r: i8)
    ensures
        r as int == kind_of(k@),
{
    if chars_eq(k, "random") || chars_eq(k, "rand") {
        0
    } else if chars_eq(k, "tactical") || chars_eq(k, "heur") || chars_eq(k, "heuristic") {
        1
    } else if chars_eq(k, "mcts") || chars_eq(k, "mcts-sequential") || chars_eq(k, "sequential") {
        2
    } else if chars_eq(k, "round-adversarial") || chars_eq(k, "round-mcts-adversarial") || chars_eq(k, "round-adv")
        || chars_eq(k, "round") {
        3
    } else if chars_eq(k, "round-tactical") || chars_eq(k, "round-mcts-tactical") || chars_eq(k, "round-tact") {
        4
    } else if chars_eq(k, "round-random") || chars_eq(k, "round-mcts-random") || chars_eq(k, "round-rand") {
        5
    } else if chars_eq(k, "macro-tactical") || chars_eq(k, "macro-mcts-tactical") || chars_eq(k, "macro-tact")
        || chars_eq(k, "macro") {
        6
    } else if chars_eq(k, "macro-random") || chars_eq(k, "macro-mcts-random") || chars_eq(k, "macro-rand") {
        7
    } else {
        -1
    }
}

impl Connect4AgentSpec {
    /// Reads an agent from `kind[:iters[:rollouts]]` (for example
    /// `round-adversarial:200:3`, `mcts:100`, `tactical`); the kind is matched
    /// after trimming and lower-casing.
    pub fn parse(s: &str, default_iters: usize, default_rollouts: usize) -> (r: Result<Self, String>)
        ensures
            res_view(r) == parse_spec(s@, split(s@, ':'), head_key(s@, ':'), default_iters, default_rollouts),
    {
        let (parts, key) = split_head(s, ':');
        Self::parse_fields(s, &parts, key.as_slice(), default_iters, default_rollouts)
    }

    /// Reads an agent from the fields `parts` of `s`, given the lower-cased,
    /// trimmed first field `key` (see `parse_spec`).
    pub fn parse_fields(
        s: &str,
        parts: &Vec<Vec<char>>,
        key: &[char],
        default_iters: usize,
        default_rollouts: usize,
    ) -> (r: Result<Self, String>)
        ensures
            res_view(r) == parse_spec(s@, parts_view(parts@), key@, default_iters, default_rollouts),
    {
        let k = kind_exec(key);
        if k == 0 {
            return Ok(Connect4AgentSpec::Random);
        }
        if k == 1 {
            return Ok(Connect4AgentSpec::Tactical);
        }
        if k < 0 {
            return Err(surround("Unknown agent type '", key, "'. Supported: random, tactical, mcts[:iters[:rollouts]], round-adversarial[:iters[:rollouts]], round-tactical[:iters[:rollouts]], round-random[:iters[:rollouts]], macro-tactical[:iters[:rollouts]], macro-random[:iters[:rollouts]]"));
        }
        let iters = match field_or_exec(parts, 1, default_iters) {
            Some(v) => v,
            None => {
                return Err(quoted("Invalid iteration count in '", s));
            },
        };
        let rollouts = match field_or_exec(parts, 2, default_rollouts) {
            Some(v) => v,
            None => {
                return Err(quoted("Invalid rollouts count in '", s));
            },
        };
        if k == 2 {
            Ok(Connect4AgentSpec::Mcts { iters, rollouts })
        } else if k == 3 {
            Ok(Connect4AgentSpec::RoundAdversarial { iters, rollouts })
        } else if k == 4 {
            Ok(Connect4AgentSpec::RoundTactical { iters, rollouts })
        } else if k == 5 {
            Ok(Connect4AgentSpec::RoundRandom { iters, rollouts })
        } else if k == 6 {
            Ok(Connect4AgentSpec::MacroTactical { iters, rollouts })
        } else {
            Ok(Connect4AgentSpec::MacroRandom { iters, rollouts })
        }
    }

    /// The display name: `Random`, `Tactical`, or the kind's short name with
    /// the iterations and the evaluation (`uniform` without rollouts,
    /// `rollout` with them), as in `Round-Adv(200,rollout)`.
    pub fn display_name(&self) -> (n: String)
        ensures
            n@ == display_spec(*self),
    {
        match self {
            Connect4AgentSpec::Random => owned("Random"),
            Connect4AgentSpec::Tactical => owned("Tactical"),
            Connect4AgentSpec::Mcts { iters, rollouts } => labeled_name("MCTS(", *iters, *rollouts),
            Connect4AgentSpec::RoundAdversarial { iters, rollouts } => labeled_name(
                "Round-Adv(",
                *iters,
                *rollouts,
            ),
            Connect4AgentSpec::RoundTactical { iters, rollouts } => labeled_name(
                "Round-Tact(",
                *iters,
                *rollouts,
            ),
            Connect4AgentSpec::RoundRandom { iters, rollouts } => labeled_name(
                "Round-Rand(",
                *iters,
                *rollouts,
            ),
            Connect4AgentSpec::MacroTactical { iters, rollouts } => labeled_name(
                "Macro-Tact(",
                *iters,
                *rollouts,
            ),
            Connect4AgentSpec::MacroRandom { iters, rollouts } => labeled_name(
                "Macro-Rand(",
                *iters,
                *rollouts,
            ),
        }
    }
}

/// The display name of an agent (see `display_name`).
pub open spec fn display_spec(a: Connect4AgentSpec) -> Seq<char> {
    match a {
        Connect4AgentSpec::Random => "Random"@,
        Connect4AgentSpec::Tactical => "Tactical"@,
        Connect4AgentSpec::Mcts { iters, rollouts } => eval_label("MCTS("@, iters, rollouts),
        Connect4AgentSpec::RoundAdversarial { iters, rollouts } => eval_label("Round-Adv("@, iters, rollouts),
        Connect4AgentSpec::RoundTactical { iters, rollouts } => eval_label("Round-Tact("@, iters, rollouts),
        Connect4AgentSpec::RoundRandom { iters, rollouts } => eval_label("Round-Rand("@, iters, rollouts),
        Connect4AgentSpec::MacroTactical { iters, rollouts } => eval_label("Macro-Tact("@, iters, rollouts),
        Connect4AgentSpec::MacroRandom { iters, rollouts } => eval_label("Macro-Rand("@, iters, rollouts),
    }
}

} // verus!
