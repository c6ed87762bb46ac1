//! Connect 4 agents: descriptions read from the command line, and simple players.
use crate::connect4::game::{Connect4State, Player};
use crate::random::random_index;
use crate::connect4::dynamics::{centre_dist, playable, wins_by, TacticalOpponent};
use crate::text::{chars_eq, decimal, decimal_chars, extend_chars, extend_str, chars_of, string_of, field_or, field_or_exec, head_key, owned, parts_view, quoted, split, split_head, surround};
use vstd::prelude::*;

verus! {

/// `prefix`, the iterations in decimal, a comma, the evaluation (`uniform`
/// without rollouts, `rollout` with them) and a closing parenthesis.
pub open spec fn eval_label(prefix: Seq<char>, iters: usize, rollouts: usize) -> Seq<char> {
    prefix + decimal(iters as nat) + ","@ + (if rollouts == 0 { "uniform"@ } else { "rollout"@ }) + ")"@
}

/// The name `prefix` + iterations + evaluation (see `eval_label`).
pub fn labeled_name(prefix: &str, iters: usize, rollouts: usize) -> (n: String)
    ensures
        n@ == eval_label(prefix@, iters, rollouts),
{
    let mut v = chars_of(prefix);
    let d = decimal_chars(iters);
    extend_chars(&mut v, d.as_slice());
    extend_str(&mut v, ",");
    if rollouts == 0 {
        extend_str(&mut v, "uniform");
    } else {
        extend_str(&mut v, "rollout");
    }
    extend_str(&mut v, ")");
    string_of(v.as_slice())
}

/// A Connect 4 agent described on the command line.
#[derive(Debug, Clone, PartialEq, Eq)]
pub enum Connect4AgentSpec {
    /// Uniformly random legal moves.
    Random,
    /// Greedy tactics: win now, block, prefer the centre.
    Tactical,
    /// Zero-sum adversarial tree search.
    Mcts { iters: usize, rollouts: usize },
    /// Macro-action search against a tactical opponent.
    MacroTactical { iters: usize, rollouts: usize },
    /// Macro-action search against a random opponent.
    MacroRandom { iters: usize, rollouts: usize },
}

/// The agent kind a lower-case name stands for: 0 random, 1 tactical,
/// 2 search, 3 macro-tactical, 4 macro-random, -1 unknown.
pub open spec fn kind_of(k: Seq<char>) -> int {
    if k == "random"@ || k == "rand"@ {
        0
    } else if k == "tactical"@ || k == "heur"@ || k == "heuristic"@ {
        1
    } else if k == "mcts"@ || k == "mcts-sequential"@ || k == "sequential"@ || k == "adversarial"@
        || k == "round-adversarial"@ || k == "round-adv"@ || k == "round"@ {
        2
    } else if k == "macro-tactical"@ || k == "macro-mcts-tactical"@ || k == "macro-tact"@ || k == "macro"@
        || k == "tactical-mcts"@ || k == "round-tactical"@ || k == "round-tact"@ {
        3
    } else if k == "macro-random"@ || k == "macro-mcts-random"@ || k == "macro-rand"@ || k == "random-mcts"@
        || k == "round-random"@ || k == "round-rand"@ {
        4
    } else {
        -1
    }
}

/// The searching agent of kind `k` (2 to 4).
pub open spec fn searcher(k: int, iters: usize, rollouts: usize) -> Connect4AgentSpec {
    if k == 2 {
        Connect4AgentSpec::Mcts { iters, rollouts }
    } else if k == 3 {
        Connect4AgentSpec::MacroTactical { iters, rollouts }
    } else {
        Connect4AgentSpec::MacroRandom { iters, rollouts }
    }
}

/// The text after the unknown name in the error for an unknown kind.
pub open spec fn unknown_suffix() -> Seq<char> {
    "'. Supported: mcts[:iters[:rollouts]], macro-tactical[:iters[:rollouts]], macro-random[:iters[:rollouts]], tactical, random"@
}

/// The outcome of reading `s`, whose `:`-separated fields are `parts` and
/// whose lower-cased, trimmed first field is `key`: field 1 gives the
/// iterations (default `default_iters`), field 2 the rollouts (default
/// `default_rollouts`).
pub open spec fn parse_spec(
    s: Seq<char>,
    parts: Seq<Seq<char>>,
    key: Seq<char>,
    default_iters: usize,
    default_rollouts: usize,
) -> Result<Connect4AgentSpec, Seq<char>> {
    let k = kind_of(key);
    if k == 0 {
        Ok(Connect4AgentSpec::Random)
    } else if k == 1 {
        Ok(Connect4AgentSpec::Tactical)
    } else if k >= 2 {
        match field_or(parts, 1, default_iters) {
            None => Err("Invalid iteration count in '"@ + s + "'"@),
            Some(iters) => match field_or(parts, 2, default_rollouts) {
                None => Err("Invalid rollouts count in '"@ + s + "'"@),
                Some(rollouts) => Ok(searcher(k, iters, rollouts)),
            },
        }
    } else {
        Err("Unknown agent type '"@ + key + unknown_suffix())
    }
}

/// A result with the error as plain characters.
pub open spec fn res_view(r: Result<Connect4AgentSpec, String>) -> Result<Connect4AgentSpec, Seq<char>> {
    match r {
        Ok(v) => Ok(v),
        Err(e) => Err(e@),
    }
}

/// The kind a lower-case name stands for (see `kind_of`).
fn kind_exec(k: &[char]) -> (r: i8)
    ensures
        r as int == kind_of(k@),
{
    if chars_eq(k, "random") || chars_eq(k, "rand") {
        0
    } else if chars_eq(k, "tactical") || chars_eq(k, "heur") || chars_eq(k, "heuristic") {
        1
    } else if chars_eq(k, "mcts") || chars_eq(k, "mcts-sequential") || chars_eq(k, "sequential") || chars_eq(
        k,
        "adversarial",
    ) || chars_eq(k, "round-adversarial") || chars_eq(k, "round-adv") || chars_eq(k, "round") {
        2
    } else if chars_eq(k, "macro-tactical") || chars_eq(k, "macro-mcts-tactical") || chars_eq(k, "macro-tact")
        || chars_eq(k, "macro") || chars_eq(k, "tactical-mcts") || chars_eq(k, "round-tactical") || chars_eq(
        k,
        "round-tact",
    ) {
        3
    } else if chars_eq(k, "macro-random") || chars_eq(k, "macro-mcts-random") || chars_eq(k, "macro-rand")
        || chars_eq(k, "random-mcts") || chars_eq(k, "round-random") || chars_eq(k, "round-rand") {
        4
    } else {
        -1
    }
}

impl Connect4AgentSpec {
    /// Reads an agent from `kind[:iters[:rollouts]]` (for example
    /// `mcts:200:3`, `macro-tactical:100`, `tactical`); the kind is matched
    /// after trimming and lower-casing.
    pub fn parse(s: &str, default_iters: usize, default_rollouts: usize) -> (r: Result<Self, String>)
        ensures
            res_view(r) == parse_spec(s@, split(s@, ':'), head_key(s@, ':'), default_iters, default_rollouts),
    {
        let (parts, key) = split_head(s, ':');
        Self::parse_fields(s, &parts, key.as_slice(), default_iters, default_rollouts)
    }

    /// Reads an agent from the fields `parts` of `s`, given the lower-cased,
    /// trimmed first field `key` (see `parse_spec`).
    pub fn parse_fields(
        s: &str,
        parts: &Vec<Vec<char>>,
        key: &[char],
        default_iters: usize,
        default_rollouts: usize,
    ) -> (r: Result<Self, String>)
        ensures
            res_view(r) == parse_spec(s@, parts_view(parts@), key@, default_iters, default_rollouts),
    {
        let k = kind_exec(key);
        if k == 0 {
            return Ok(Connect4AgentSpec::Random);
        }
        if k == 1 {
            return Ok(Connect4AgentSpec::Tactical);
        }
        if k < 0 {
            return Err(surround("Unknown agent type '", key, "'. Supported: mcts[:iters[:rollouts]], macro-tactical[:iters[:rollouts]], macro-random[:iters[:rollouts]], tactical, random"));
        }
        let iters = match field_or_exec(parts, 1, default_iters) {
            Some(v) => v,
            None => {
                return Err(quoted("Invalid iteration count in '", s));
            },
        };
        let rollouts = match field_or_exec(parts, 2, default_rollouts) {
            Some(v) => v,
            None => {
                return Err(quoted("Invalid rollouts count in '", s));
            },
        };
        if k == 2 {
            Ok(Connect4AgentSpec::Mcts { iters, rollouts })
        } else if k == 3 {
            Ok(Connect4AgentSpec::MacroTactical { iters, rollouts })
        } else {
            Ok(Connect4AgentSpec::MacroRandom { iters, rollouts })
        }
    }

    /// The display name: `Random`, `Tactical`, or the kind's short name with
    /// the iterations and the evaluation (`uniform` without rollouts,
    /// `rollout` with them), as in `MCTS(200,rollout)`.
    pub fn display_name(&self) -> (n: String)
        ensures
            n@ == display_spec(*self),
    {
        match self {
            Connect4AgentSpec::Random => owned("Random"),
            Connect4AgentSpec::Tactical => owned("Tactical"),
            Connect4AgentSpec::Mcts { iters, rollouts } => labeled_name("MCTS(", *iters, *rollouts),
            Connect4AgentSpec::MacroTactical { iters, rollouts } => labeled_name(
                "Macro-Tact(",
                *iters,
                *rollouts,
            ),
            Connect4AgentSpec::MacroRandom { iters, rollouts } => labeled_name(
                "Macro-Rand(",
                *iters,
                *rollouts,
            ),
        }
    }
}

/// The display name of an agent (see `display_name`).
pub open spec fn display_spec(a: Connect4AgentSpec) -> Seq<char> {
    match a {
        Connect4AgentSpec::Random => "Random"@,
        Connect4AgentSpec::Tactical => "Tactical"@,
        Connect4AgentSpec::Mcts { iters, rollouts } => eval_label("MCTS("@, iters, rollouts),
        Connect4AgentSpec::MacroTactical { iters, rollouts } => eval_label("Macro-Tact("@, iters, rollouts),
        Connect4AgentSpec::MacroRandom { iters, rollouts } => eval_label("Macro-Rand("@, iters, rollouts),
    }
}


/// A human player, known by name.
pub struct HumanAgent {
    name: String,
}

impl HumanAgent {
    pub closed spec fn spec_name(&self) -> Seq<char> {
        self.name@
    }

    /// A human player called `name`.
    pub fn new(name: &str) -> (a: Self)
        ensures
            a.spec_name() == name@,
    {
        HumanAgent { name: owned(name) }
    }

    /// The player's name.
    pub fn name(&self) -> (n: &str)
        ensures
            n@ == self.spec_name(),
    {
        self.name.as_str()
    }
}

/// A player choosing uniformly among the columns that are not full.
pub struct RandomAgent {
    name: String,
}

impl RandomAgent {
    pub closed spec fn spec_name(&self) -> Seq<char> {
        self.name@
    }

    /// A random player called `name`.
    pub fn new(name: &str) -> (a: Self)
        ensures
            a.spec_name() == name@,
    {
        RandomAgent { name: owned(name) }
    }

    /// The player's name.
    pub fn name(&self) -> (n: &str)
        ensures
            n@ == self.spec_name(),
    {
        self.name.as_str()
    }

    /// A column that is not full, at random.
    pub fn select_action<const R: usize, const C: usize>(&mut self, state: &Connect4State<R, C>) -> (col: usize)
        requires
            R >= 1,
            !state.spec_board_full(),
        ensures
            col < C,
            !state.spec_column_full(col as int),
    {
        let mut legal: Vec<usize> = Vec::new();
        state.legal_actions(&mut legal);
        proof {
            let c = choose|c: int| 0 <= c < C && !#[trigger] state.spec_column_full(c);
            assert(legal@.contains(c as usize));
        }
        let i = random_index(legal.len());
        legal[i]
    }
}

impl Default for RandomAgent {
    fn default() -> (a: Self)
        ensures
            a.spec_name() == "Random Agent"@,
    {
        RandomAgent::new("Random Agent")
    }
}

/// A player that wins at once when it can, else blocks the opponent's
/// immediate win, else plays nearest the centre.
pub struct TacticalAgent {
    name: String,
    opponent: TacticalOpponent,
}

impl TacticalAgent {
    pub closed spec fn spec_name(&self) -> Seq<char> {
        self.name@
    }

    /// A tactical player called `name`.
    pub fn new(name: &str) -> (a: Self)
        ensures
            a.spec_name() == name@,
    {
        TacticalAgent { name: owned(name), opponent: TacticalOpponent }
    }

    /// The player's name.
    pub fn name(&self) -> (n: &str)
        ensures
            n@ == self.spec_name(),
    {
        self.name.as_str()
    }

    /// The tactical opponent's choice: a winning column, else a blocking
    /// one, else the one nearest the centre (leftmost in each case).
    pub fn select_action<const R: usize, const C: usize>(&mut self, state: &Connect4State<R, C>) -> (col: usize)
        requires
            R >= 1,
            !state.spec_board_full(),
        ensures
            col < C,
            !state.spec_column_full(col as int),
            ({
                let me = state.current_player;
                let opp = me.spec_other();
                let can_win = exists|c: int| #[trigger] playable(*state, c) && wins_by(*state, c, me);
                let must_block = exists|c: int| #[trigger] playable(*state, c) && wins_by(*state, c, opp);
                &&& can_win ==> wins_by(*state, col as int, me) && forall|c: int|
                    #[trigger] playable(*state, c) && c < col ==> !wins_by(*state, c, me)
                &&& !can_win && must_block ==> wins_by(*state, col as int, opp) && forall|c: int|
                    #[trigger] playable(*state, c) && c < col ==> !wins_by(*state, c, opp)
                &&& !can_win && !must_block ==> forall|c: int|
                    #[trigger] playable(*state, c) ==> centre_dist(col as int, C as int) <= centre_dist(c, C as int)
                        && (c < col ==> centre_dist(col as int, C as int) < centre_dist(c, C as int))
            }),
    {
        self.opponent.select_action(state)
    }
}

impl Default for TacticalAgent {
    fn default() -> (a: Self)
        ensures
            a.spec_name() == "Tactical Agent"@,
    {
        TacticalAgent::new("Tactical Agent")
    }
}

/// How a search agent models its opponent.
#[derive(Debug, Clone, Copy, PartialEq, Eq)]
pub enum MctsMode {
    /// Both players searched in one alternating tree.
    Adversarial,
    /// The opponent is assumed to play the tactical heuristic.
    MacroTactical,
    /// The opponent is assumed to play at random.
    MacroRandom,
}

} // verus!
