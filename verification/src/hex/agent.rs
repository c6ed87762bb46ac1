//! Hex players.
use crate::hex::game::{legal_moves, HexState};
use crate::numeral::{numeral_error, numeral_error_exec, numeral_ok, numeral_ok_exec};
use crate::random::random_index;
use crate::text::{
    chars_eq, chars_of, decimal, decimal_chars, extend_chars, extend_str, lowercase, lowercase_chars, owned, parse_usize,
    parse_usize_spec, parts_view, split, split_parts, string_of, usize_error, usize_error_text,
};
use vstd::prelude::*;

verus! {

/// A human player on an `N`-by-`N` board, known by name.
#[derive(Debug, Clone, Default)]
pub struct HumanAgent<const N: usize> {
    name: String,
}

impl<const N: usize> HumanAgent<N> {
    pub closed spec fn spec_name(&self) -> Seq<char> {
        self.name@
    }

    /// A human player called `Human`.
    pub fn new() -> (a: Self)
        ensures
            a.spec_name() == "Human"@,
    {
        HumanAgent { name: owned("Human") }
    }

    /// A human player called `name`.
    pub fn with_name(name: &str) -> (a: Self)
        ensures
            a.spec_name() == name@,
    {
        HumanAgent { name: owned(name) }
    }

    /// The player's name.
    pub fn name(&self) -> (n: &str)
        ensures
            n@ == self.spec_name(),
    {
        self.name.as_str()
    }
}

/// A player choosing uniformly among the legal moves.
#[derive(Debug, Clone, Default)]
pub struct RandomAgent {
    name: String,
}

impl RandomAgent {
    pub closed spec fn spec_name(&self) -> Seq<char> {
        self.name@
    }

    /// A random player called `Random`.
    pub fn new() -> (a: Self)
        ensures
            a.spec_name() == "Random"@,
    {
        RandomAgent { name: owned("Random") }
    }

    /// A random player called `name`.
    pub fn with_name(name: &str) -> (a: Self)
        ensures
            a.spec_name() == name@,
    {
        RandomAgent { name: owned(name) }
    }

    /// The player's name.
    pub fn name(&self) -> (n: &str)
        ensures
            n@ == self.spec_name(),
    {
        self.name.as_str()
    }

    /// One of the legal moves of `state`, at random.
    pub fn select_action<const N: usize>(&mut self, state: &HexState<N>) -> (a: usize)
        requires
            state.wf(),
            legal_moves(*state).len() > 0,
        ensures
            legal_moves(*state).contains(a),
    {
        let mut legal: Vec<usize> = Vec::new();
        state.legal_actions(&mut legal);
        let i = random_index(legal.len());
        assert(legal@[i as int] == legal_moves(*state)[i as int]);
        legal[i]
    }
}

/// A Hex agent as read from the command line. The searching kinds keep the
/// exploration constant as it was written (`None` when it was left out):
/// text that the parser of binary floating-point numbers accepts, for the
/// caller to read as a number.
#[derive(Debug, Clone, PartialEq)]
pub enum HexAgentSpec {
    /// Search with random fills: `mcts[:iters[:rollouts[:c_puct]]]`.
    MctsRollout { iters: usize, rollouts: usize, c_puct: Option<String> },
    /// Search with the shortest-path heuristic: `mcts-h[:iters[:c_puct]]`.
    MctsHeuristic { iters: usize, c_puct: Option<String> },
    /// Search with uniform priors: `mcts-u[:iters[:c_puct]]`.
    MctsUniform { iters: usize, c_puct: Option<String> },
    /// One-move look-ahead: `heuristic`.
    Heuristic,
    /// Uniformly random moves: `random`.
    Random,
    /// A person at the terminal: `human`.
    Human,
}

/// A Hex agent in plain values.
pub enum HexAgentModel {
    MctsRollout { iters: usize, rollouts: usize, c_puct: Option<Seq<char>> },
    MctsHeuristic { iters: usize, c_puct: Option<Seq<char>> },
    MctsUniform { iters: usize, c_puct: Option<Seq<char>> },
    Heuristic,
    Random,
    Human,
}

/// An optional text as plain characters.
pub open spec fn text_view(t: Option<String>) -> Option<Seq<char>> {
    match t {
        Some(x) => Some(x@),
        None => None,
    }
}

/// The kind a lower-case name stands for: 0 rollout search, 1 heuristic
/// search, 2 uniform search, 3 heuristic, 4 random, 5 human, -1 unknown.
pub open spec fn hex_kind(k: Seq<char>) -> int {
    if k == "mcts"@ || k == "rollout"@ {
        0
    } else if k == "mcts-h"@ || k == "mcts-heuristic"@ {
        1
    } else if k == "mcts-u"@ || k == "mcts-uniform"@ {
        2
    } else if k == "heuristic"@ || k == "h"@ {
        3
    } else if k == "random"@ || k == "rand"@ || k == "r"@ {
        4
    } else if k == "human"@ {
        5
    } else {
        -1
    }
}

/// Field `idx` of `parts` read as a count, or `default` when there is no such
/// field; the parser's message when the field is not a count.
pub open spec fn count_field(parts: Seq<Seq<char>>, idx: int, default: usize) -> Result<usize, Seq<char>> {
    if parts.len() > idx {
        match parse_usize_spec(parts[idx]) {
            Some(v) => Ok(v),
            None => Err(usize_error_text(parts[idx])),
        }
    } else {
        Ok(default)
    }
}

/// Field `idx` of `parts`, if there is one, when it is a number the parser
/// of binary floating-point numbers accepts; that parser's message when it
/// is not.
pub open spec fn constant_field(parts: Seq<Seq<char>>, idx: int) -> Result<Option<Seq<char>>, Seq<char>> {
    if parts.len() > idx {
        if numeral_ok(parts[idx]) {
            Ok(Some(parts[idx]))
        } else {
            Err(numeral_error(parts[idx]))
        }
    } else {
        Ok(None)
    }
}

/// The outcome of reading `s`: its kind is the lower-cased first `:`-field;
/// field 1 gives the iterations (default 500), field 2 the rollouts of the
/// rollout search (default 2), and the field after them the exploration
/// constant.
pub open spec fn hex_parse(s: Seq<char>) -> Result<HexAgentModel, Seq<char>> {
    let parts = split(s, ':');
    let k = hex_kind(lowercase(parts[0]));
    if 0 <= k <= 2 {
        match count_field(parts, 1, 500) {
            Err(e) => Err("invalid iterations: "@ + e),
            Ok(iters) => if k == 0 {
                match count_field(parts, 2, 2) {
                    Err(e) => Err("invalid rollouts: "@ + e),
                    Ok(rollouts) => match constant_field(parts, 3) {
                        Err(e) => Err("invalid c_puct: "@ + e),
                        Ok(c_puct) => Ok(HexAgentModel::MctsRollout { iters, rollouts, c_puct }),
                    },
                }
            } else {
                match constant_field(parts, 2) {
                    Err(e) => Err("invalid c_puct: "@ + e),
                    Ok(c_puct) => if k == 1 {
                        Ok(HexAgentModel::MctsHeuristic { iters, c_puct })
                    } else {
                        Ok(HexAgentModel::MctsUniform { iters, c_puct })
                    },
                }
            },
        }
    } else if k == 3 {
        Ok(HexAgentModel::Heuristic)
    } else if k == 4 {
        Ok(HexAgentModel::Random)
    } else if k == 5 {
        Ok(HexAgentModel::Human)
    } else {
        Err("unknown agent spec '"@ + s + "'. Supported: mcts, mcts-h, mcts-u, heuristic, random, human"@)
    }
}

/// The standard name of an agent.
pub open spec fn hex_agent_name(m: HexAgentModel) -> Seq<char> {
    match m {
        HexAgentModel::MctsRollout { iters, rollouts, .. } => "MCTS-Rollout("@ + decimal(iters as nat) + ",r="@
            + decimal(rollouts as nat) + ")"@,
        HexAgentModel::MctsHeuristic { iters, .. } => "MCTS-Heuristic("@ + decimal(iters as nat) + ")"@,
        HexAgentModel::MctsUniform { iters, .. } => "MCTS-Uniform("@ + decimal(iters as nat) + ")"@,
        HexAgentModel::Heuristic => "Heuristic"@,
        HexAgentModel::Random => "Random"@,
        HexAgentModel::Human => "Human"@,
    }
}

/// A read agent, or the error message, in plain values.
pub open spec fn parsed_view(r: Result<HexAgentSpec, String>) -> Result<HexAgentModel, Seq<char>> {
    match r {
        Ok(a) => Ok(a.model()),
        Err(e) => Err(e@),
    }
}

/// The kind a lower-case name stands for (see `hex_kind`).
fn hex_kind_exec(k: &[char]) -> (r: i8)
    ensures
        r as int == hex_kind(k@),
{
    if chars_eq(k, "mcts") || chars_eq(k, "rollout") {
        0
    } else if chars_eq(k, "mcts-h") || chars_eq(k, "mcts-heuristic") {
        1
    } else if chars_eq(k, "mcts-u") || chars_eq(k, "mcts-uniform") {
        2
    } else if chars_eq(k, "heuristic") || chars_eq(k, "h") {
        3
    } else if chars_eq(k, "random") || chars_eq(k, "rand") || chars_eq(k, "r") {
        4
    } else if chars_eq(k, "human") {
        5
    } else {
        -1
    }
}

/// Field `idx` of `parts` read as a count (see `count_field`).
fn count_field_exec(parts: &Vec<Vec<char>>, idx: usize, default: usize) -> (r: Result<usize, String>)
    ensures
        match r {
            Ok(v) => count_field(parts_view(parts@), idx as int, default) == Ok::<usize, Seq<char>>(v),
            Err(e) => count_field(parts_view(parts@), idx as int, default) == Err::<usize, Seq<char>>(e@),
        },
{
    if parts.len() > idx {
        let field = parts[idx].as_slice();
        match parse_usize(field) {
            Some(v) => Ok(v),
            None => {
                let t = string_of(field);
                Err(usize_error(t.as_str()))
            },
        }
    } else {
        Ok(default)
    }
}

/// Field `idx` of `parts` read as an exploration constant (see
/// `constant_field`).
fn constant_field_exec(parts: &Vec<Vec<char>>, idx: usize) -> (r: Result<Option<String>, String>)
    ensures
        match r {
            Ok(c) => constant_field(parts_view(parts@), idx as int) == Ok::<Option<Seq<char>>, Seq<char>>(
                text_view(c),
            ),
            Err(e) => constant_field(parts_view(parts@), idx as int) == Err::<Option<Seq<char>>, Seq<char>>(e@),
        },
{
    if parts.len() > idx {
        let field = parts[idx].as_slice();
        if numeral_ok_exec(field) {
            Ok(Some(string_of(field)))
        } else {
            Err(string_of(numeral_error_exec(field).as_slice()))
        }
    } else {
        Ok(None)
    }
}

/// `prefix` followed by `e`.
fn prefixed(prefix: &str, e: String) -> (m: String)
    ensures
        m@ == prefix@ + e@,
{
    let mut v = chars_of(prefix);
    let tail = chars_of(e.as_str());
    extend_chars(&mut v, tail.as_slice());
    string_of(v.as_slice())
}

impl HexAgentSpec {
    /// The agent in plain values.
    pub open spec fn model(self) -> HexAgentModel {
        match self {
            HexAgentSpec::MctsRollout { iters, rollouts, c_puct } => HexAgentModel::MctsRollout {
                iters,
                rollouts,
                c_puct: text_view(c_puct),
            },
            HexAgentSpec::MctsHeuristic { iters, c_puct } => HexAgentModel::MctsHeuristic {
                iters,
                c_puct: text_view(c_puct),
            },
            HexAgentSpec::MctsUniform { iters, c_puct } => HexAgentModel::MctsUniform {
                iters,
                c_puct: text_view(c_puct),
            },
            HexAgentSpec::Heuristic => HexAgentModel::Heuristic,
            HexAgentSpec::Random => HexAgentModel::Random,
            HexAgentSpec::Human => HexAgentModel::Human,
        }
    }

    /// Reads an agent from `kind[:iters[:rollouts]][:c_puct]` (for example
    /// `mcts:1000:2`, `mcts-h:300`, `heuristic`); the kind is matched after
    /// lower-casing.
    pub fn parse(s: &str) -> (r: Result<Self, String>)
        ensures
            parsed_view(r) == hex_parse(s@),
    {
        let all = chars_of(s);
        let parts = split_parts(all.as_slice(), ':');
        let ghost pv = parts_view(parts@);
        assert(pv[0] == parts@[0]@);
        let key = lowercase_chars(parts[0].as_slice());
        let k = hex_kind_exec(key.as_slice());
        if k == 3 {
            return Ok(HexAgentSpec::Heuristic);
        }
        if k == 4 {
            return Ok(HexAgentSpec::Random);
        }
        if k == 5 {
            return Ok(HexAgentSpec::Human);
        }
        if k < 0 {
            let mut m = chars_of("unknown agent spec '");
            extend_str(&mut m, s);
            extend_str(&mut m, "'. Supported: mcts, mcts-h, mcts-u, heuristic, random, human");
            return Err(string_of(m.as_slice()));
        }
        let iters = match count_field_exec(&parts, 1, 500) {
            Ok(v) => v,
            Err(e) => {
                return Err(prefixed("invalid iterations: ", e));
            },
        };
        if k == 1 || k == 2 {
            let c_puct = match constant_field_exec(&parts, 2) {
                Ok(c) => c,
                Err(e) => {
                    return Err(prefixed("invalid c_puct: ", e));
                },
            };
            if k == 1 {
                return Ok(HexAgentSpec::MctsHeuristic { iters, c_puct });
            }
            return Ok(HexAgentSpec::MctsUniform { iters, c_puct });
        }
        let rollouts = match count_field_exec(&parts, 2, 2) {
            Ok(v) => v,
            Err(e) => {
                return Err(prefixed("invalid rollouts: ", e));
            },
        };
        let c_puct = match constant_field_exec(&parts, 3) {
            Ok(c) => c,
            Err(e) => {
                return Err(prefixed("invalid c_puct: ", e));
            },
        };
        Ok(HexAgentSpec::MctsRollout { iters, rollouts, c_puct })
    }

    /// The standard name, such as `MCTS-Rollout(1000,r=2)` or `Human`.
    pub fn default_name(&self) -> (n: String)
        ensures
            n@ == hex_agent_name(self.model()),
    {
        match self {
            HexAgentSpec::MctsRollout { iters, rollouts, .. } => {
                let mut v = chars_of("MCTS-Rollout(");
                extend_chars(&mut v, decimal_chars(*iters).as_slice());
                extend_str(&mut v, ",r=");
                extend_chars(&mut v, decimal_chars(*rollouts).as_slice());
                extend_str(&mut v, ")");
                string_of(v.as_slice())
            },
            HexAgentSpec::MctsHeuristic { iters, .. } => {
                let mut v = chars_of("MCTS-Heuristic(");
                extend_chars(&mut v, decimal_chars(*iters).as_slice());
                extend_str(&mut v, ")");
                string_of(v.as_slice())
            },
            HexAgentSpec::MctsUniform { iters, .. } => {
                let mut v = chars_of("MCTS-Uniform(");
                extend_chars(&mut v, decimal_chars(*iters).as_slice());
                extend_str(&mut v, ")");
                string_of(v.as_slice())
            },
            HexAgentSpec::Heuristic => owned("Heuristic"),
            HexAgentSpec::Random => owned("Random"),
            HexAgentSpec::Human => owned("Human"),
        }
    }
}

} // verus!
