//! Agent descriptions for Blokus tournaments, read from `kind[:iters[:rollouts[:depth]]]`.
use crate::text::{
    chars_eq, chars_of, decimal, decimal_chars, extend_chars, extend_str, field_or, field_or_exec,
    head_key, owned, parts_view, quoted, split, split_head, string_of, surround,
};
use vstd::prelude::*;

verus! {

/// A Blokus agent for a tournament.
#[derive(Debug, Clone, PartialEq, Eq)]
pub enum AgentSpec {
    /// Tree search with the static area heuristic.
    Mcts {
        /// Search iterations.
        iters: usize,
    },
    /// Tree search with heuristic utility priors.
    MctsHeuristicUtility {
        /// Search iterations.
        iters: usize,
    },
    /// Tree search with heuristic rollouts.
    MctsHeuristicRollout {
        /// Search iterations.
        iters: usize,
        /// Rollouts per leaf.
        num_rollouts: usize,
        /// Depth of each rollout.
        max_depth: usize,
    },
    /// Tree search with random rollouts.
    MctsRollout {
        /// Search iterations.
        iters: usize,
        /// Rollouts per leaf.
        num_rollouts: usize,
        /// Depth of each rollout.
        max_depth: usize,
    },
    /// Tree search with uniform priors.
    MctsUniform {
        /// Search iterations.
        iters: usize,
    },
    /// Greedy heuristic play.
    Heuristic,
    /// Uniformly random legal moves.
    Random,
}

/// The agent kind a lower-case name stands for: 0 heuristic-utility search,
/// 1 heuristic-rollout search, 2 search, 3 rollout search, 4 uniform search,
/// 5 heuristic, 6 random, -1 unknown.
pub open spec fn kind_of(k: Seq<char>) -> int {
    if k == "mcts-hu"@ || k == "hu"@ || k == "mcts-utility"@ {
        0
    } else if k == "mcts-hr"@ || k == "hr"@ || k == "mcts-heur-rollout"@ {
        1
    } else if k == "mcts"@ || k == "mcts-heuristic"@ || k == "heur-mcts"@ {
        2
    } else if k == "mcts-rollout"@ || k == "rollout"@ || k == "mcts-ro"@ {
        3
    } else if k == "mcts-uniform"@ || k == "uniform"@ || k == "mcts-u"@ {
        4
    } else if k == "heuristic"@ || k == "heur"@ {
        5
    } else if k == "random"@ || k == "rand"@ {
        6
    } else {
        -1
    }
}

/// The text after the unknown name in the error for an unknown kind.
pub open spec fn unknown_suffix() -> Seq<char> {
    "'. Expected 'mcts[:iters]', 'mcts-hu[:iters]', 'mcts-hr[:iters[:r[:d]]]', 'mcts-rollout[:iters[:r[:d]]]', 'mcts-uniform[:iters]', 'heuristic', or 'random'"@
}

/// The rollout agents (kinds 1 and 3): field 1 gives the iterations (default
/// `default_iters`), field 2 the rollouts (default 2), field 3 the depth
/// (default 20).
pub open spec fn rollout_spec(s: Seq<char>, parts: Seq<Seq<char>>, k: int, default_iters: usize) -> Result<
    AgentSpec,
    Seq<char>,
> {
    match field_or(parts, 1, default_iters) {
        None => Err("Invalid iterations in '"@ + s + "'"@),
        Some(iters) => match field_or(parts, 2, 2) {
            None => Err("Invalid rollouts count in '"@ + s + "'"@),
            Some(num_rollouts) => match field_or(parts, 3, 20) {
                None => Err("Invalid rollout depth in '"@ + s + "'"@),
                Some(max_depth) => if k == 1 {
                    Ok(AgentSpec::MctsHeuristicRollout { iters, num_rollouts, max_depth })
                } else {
                    Ok(AgentSpec::MctsRollout { iters, num_rollouts, max_depth })
                },
            },
        },
    }
}

/// The outcome of reading `s`, whose `:`-separated fields are `parts` and
/// whose lower-cased, trimmed first field is `key`.
pub open spec fn parse_spec(s: Seq<char>, parts: Seq<Seq<char>>, key: Seq<char>, default_iters: usize) -> Result<
    AgentSpec,
    Seq<char>,
> {
    let k = kind_of(key);
    if k == 1 || k == 3 {
        rollout_spec(s, parts, k, default_iters)
    } else if k == 0 || k == 2 || k == 4 {
        match field_or(parts, 1, default_iters) {
            None => Err("Invalid iterations in '"@ + s + "'"@),
            Some(iters) => if k == 0 {
                Ok(AgentSpec::MctsHeuristicUtility { iters })
            } else if k == 2 {
                Ok(AgentSpec::Mcts { iters })
            } else {
                Ok(AgentSpec::MctsUniform { iters })
            },
        }
    } else if k == 5 {
        Ok(AgentSpec::Heuristic)
    } else if k == 6 {
        Ok(AgentSpec::Random)
    } else {
        Err("Unknown agent type '"@ + key + unknown_suffix())
    }
}

/// A result with the error as plain characters.
pub open spec fn res_view(r: Result<AgentSpec, String>) -> Result<AgentSpec, Seq<char>> {
    match r {
        Ok(v) => Ok(v),
        Err(e) => Err(e@),
    }
}

/// The kind a lower-case name stands for (see `kind_of`).
fn kind_exec(k: &[char]) -> (r: i8)
    ensures
        r as int == kind_of(k@),
{
    if chars_eq(k, "mcts-hu") || chars_eq(k, "hu") || chars_eq(k, "mcts-utility") {
        0
    } else if chars_eq(k, "mcts-hr") || chars_eq(k, "hr") || chars_eq(k, "mcts-heur-rollout") {
        1
    } else if chars_eq(k, "mcts") || chars_eq(k, "mcts-heuristic") || chars_eq(k, "heur-mcts") {
        2
    } else if chars_eq(k, "mcts-rollout") || chars_eq(k, "rollout") || chars_eq(k, "mcts-ro") {
        3
    } else if chars_eq(k, "mcts-uniform") || chars_eq(k, "uniform") || chars_eq(k, "mcts-u") {
        4
    } else if chars_eq(k, "heuristic") || chars_eq(k, "heur") {
        5
    } else if chars_eq(k, "random") || chars_eq(k, "rand") {
        6
    } else {
        -1
    }
}

/// The name `prefix`, the number, and a closing parenthesis.
pub open spec fn count_label(prefix: Seq<char>, n: usize) -> Seq<char> {
    prefix + decimal(n as nat) + ")"@
}

/// The name of a rollout agent: `prefix`, iterations, `,r=`, rollouts, `,d=`, depth, `)`.
pub open spec fn rollout_label(prefix: Seq<char>, iters: usize, r: usize, d: usize) -> Seq<char> {
    prefix + decimal(iters as nat) + ",r="@ + decimal(r as nat) + ",d="@ + decimal(d as nat) + ")"@
}

fn count_name(prefix: &str, n: usize) -> (s: String)
    ensures
        s@ == count_label(prefix@, n),
{
    let mut v = chars_of(prefix);
    let d = decimal_chars(n);
    extend_chars(&mut v, d.as_slice());
    extend_str(&mut v, ")");
    string_of(v.as_slice())
}

fn rollout_name(prefix: &str, iters: usize, r: usize, d: usize) -> (s: String)
    ensures
        s@ == rollout_label(prefix@, iters, r, d),
{
    let mut v = chars_of(prefix);
    let a = decimal_chars(iters);
    extend_chars(&mut v, a.as_slice());
    extend_str(&mut v, ",r=");
    let b = decimal_chars(r);
    extend_chars(&mut v, b.as_slice());
    extend_str(&mut v, ",d=");
    let c = decimal_chars(d);
    extend_chars(&mut v, c.as_slice());
    extend_str(&mut v, ")");
    string_of(v.as_slice())
}

/// The display name of an agent (see `display_name`).
pub open spec fn display_spec(a: AgentSpec) -> Seq<char> {
    match a {
        AgentSpec::Mcts { iters } => count_label("MCTS("@, iters),
        AgentSpec::MctsHeuristicUtility { iters } => count_label("MCTS-HU("@, iters),
        AgentSpec::MctsHeuristicRollout { iters, num_rollouts, max_depth } => rollout_label(
            "MCTS-HR("@,
            iters,
            num_rollouts,
            max_depth,
        ),
        AgentSpec::MctsRollout { iters, num_rollouts, max_depth } => rollout_label(
            "MCTS-RO("@,
            iters,
            num_rollouts,
            max_depth,
        ),
        AgentSpec::MctsUniform { iters } => count_label("MCTS-Uniform("@, iters),
        AgentSpec::Heuristic => "Heuristic"@,
        AgentSpec::Random => "Random"@,
    }
}

impl AgentSpec {
    /// Reads an agent from `kind[:iters[:rollouts[:depth]]]` (for example
    /// `mcts:50`, `mcts-hr:100:2:15`, `random`); the kind is matched after
    /// trimming and lower-casing.
    pub fn parse(s: &str, default_iters: usize) -> (r: Result<Self, String>)
        ensures
            res_view(r) == parse_spec(s@, split(s@, ':'), head_key(s@, ':'), default_iters),
    {
        let (parts, key) = split_head(s, ':');
        Self::parse_fields(s, &parts, key.as_slice(), default_iters)
    }

    /// Reads an agent from the fields `parts` of `s`, given the lower-cased,
    /// trimmed first field `key` (see `parse_spec`).
    pub fn parse_fields(s: &str, parts: &Vec<Vec<char>>, key: &[char], default_iters: usize) -> (r: Result<
        Self,
        String,
    >)
        ensures
            res_view(r) == parse_spec(s@, parts_view(parts@), key@, default_iters),
    {
        let k = kind_exec(key);
        if k == 5 {
            return Ok(AgentSpec::Heuristic);
        }
        if k == 6 {
            return Ok(AgentSpec::Random);
        }
        if k < 0 {
            return Err(surround("Unknown agent type '", key, "'. Expected 'mcts[:iters]', 'mcts-hu[:iters]', 'mcts-hr[:iters[:r[:d]]]', 'mcts-rollout[:iters[:r[:d]]]', 'mcts-uniform[:iters]', 'heuristic', or 'random'"));
        }
        let iters = match field_or_exec(parts, 1, default_iters) {
            Some(v) => v,
            None => {
                return Err(quoted("Invalid iterations in '", s));
            },
        };
        if k == 0 {
            return Ok(AgentSpec::MctsHeuristicUtility { iters });
        }
        if k == 2 {
            return Ok(AgentSpec::Mcts { iters });
        }
        if k == 4 {
            return Ok(AgentSpec::MctsUniform { iters });
        }
        let num_rollouts = match field_or_exec(parts, 2, 2) {
            Some(v) => v,
            None => {
                return Err(quoted("Invalid rollouts count in '", s));
            },
        };
        let max_depth = match field_or_exec(parts, 3, 20) {
            Some(v) => v,
            None => {
                return Err(quoted("Invalid rollout depth in '", s));
            },
        };
        if k == 1 {
            Ok(AgentSpec::MctsHeuristicRollout { iters, num_rollouts, max_depth })
        } else {
            Ok(AgentSpec::MctsRollout { iters, num_rollouts, max_depth })
        }
    }

    /// The display name, such as `MCTS(50)`, `MCTS-HR(100,r=2,d=15)` or `Random`.
    pub fn display_name(&self) -> (n: String)
        ensures
            n@ == display_spec(*self),
    {
        match self {
            AgentSpec::Mcts { iters } => count_name("MCTS(", *iters),
            AgentSpec::MctsHeuristicUtility { iters } => count_name("MCTS-HU(", *iters),
            AgentSpec::MctsHeuristicRollout { iters, num_rollouts, max_depth } => rollout_name(
                "MCTS-HR(",
                *iters,
                *num_rollouts,
                *max_depth,
            ),
            AgentSpec::MctsRollout { iters, num_rollouts, max_depth } => rollout_name(
                "MCTS-RO(",
                *iters,
                *num_rollouts,
                *max_depth,
            ),
            AgentSpec::MctsUniform { iters } => count_name("MCTS-Uniform(", *iters),
            AgentSpec::Heuristic => owned("Heuristic"),
            AgentSpec::Random => owned("Random"),
        }
    }
}

} // verus!
