//! The Sequence referee and the per-player view of a game.
use crate::sequence::board::{recs_view, Card, SequenceRecord};
use crate::sequence::game::{
    hand_actions, hand_moves, hands_view, known_cards, SequenceAction, SequenceConfig, SequenceState,
};
use vstd::prelude::*;

verus! {

/// What one player sees of a game: the board and its own hand, but only the
/// sizes of the other hands and of the draw pile.
#[derive(Clone, Debug, PartialEq)]
pub struct SequenceObservation {
    /// Players and teams.
    pub config: SequenceConfig,
    /// The observing player.
    pub player: usize,
    /// Chips on the board.
    pub board: [Option<u8>; 100],
    /// Chips locked in completed sequences.
    pub locked_chips: [bool; 100],
    /// Completed sequences.
    pub sequences: Vec<SequenceRecord>,
    /// Completed sequences per team.
    pub team_sequence_counts: [u8; 3],
    /// The player to move.
    pub current_player: usize,
    /// The observer's cards.
    pub my_hand: Vec<Card>,
    /// How many cards each player holds.
    pub other_hand_counts: Vec<usize>,
    /// Cards left in the draw pile.
    pub deck_remaining: usize,
    /// The discard pile.
    pub discards: Vec<Card>,
    /// Moves played so far.
    pub total_moves: usize,
    /// Whether the game is over.
    pub terminated: bool,
    /// The winning team, when the game was won.
    pub winner_team: Option<u8>,
}

/// The legal moves the observer of `o` sees: none unless it is the
/// observer's turn in a game still going on.
pub open spec fn observation_moves(o: SequenceObservation) -> Seq<SequenceAction> {
    if o.terminated || o.current_player != o.player {
        Seq::empty()
    } else {
        hand_moves(o.board@, o.locked_chips@, o.config.spec_team(o.player as int), o.my_hand@, o.my_hand@.len() as int)
    }
}

/// The legal moves of the player to move in `ws`: none once the game is over.
pub open spec fn world_moves(ws: SequenceState) -> Seq<SequenceAction> {
    if ws.terminated {
        Seq::empty()
    } else {
        hand_moves(
            ws.board@,
            ws.locked_chips@,
            ws.config.spec_team(ws.current_player as int),
            ws.hands@[ws.current_player as int]@,
            ws.hands@[ws.current_player as int]@.len() as int,
        )
    }
}

/// `o` is what `player` sees of `ws`: everything public, its own hand (empty
/// for a seat with no hand), and the sizes of all hands.
pub open spec fn observes(ws: SequenceState, player: usize, o: SequenceObservation) -> bool {
    &&& o.config == ws.config
    &&& o.player == player
    &&& o.board == ws.board
    &&& o.locked_chips == ws.locked_chips
    &&& o.sequences@ == ws.sequences@
    &&& o.team_sequence_counts == ws.team_sequence_counts
    &&& o.current_player == ws.current_player
    &&& o.my_hand@ == (if player < ws.hands@.len() { ws.hands@[player as int]@ } else { Seq::empty() })
    &&& o.other_hand_counts@.len() == ws.hands@.len()
    &&& forall|i: int| 0 <= i < ws.hands@.len() ==> #[trigger] o.other_hand_counts@[i] == ws.hands@[i]@.len()
    &&& o.deck_remaining == ws.deck@.len()
    &&& o.discards@ == ws.discards@
    &&& o.total_moves == ws.total_moves
    &&& o.terminated == ws.terminated
    &&& o.winner_team == ws.winner_team
}

/// A player's view offers exactly the moves the referee offers that player:
/// the referee's legal moves on the player's turn in a game still going on,
/// and none otherwise.
pub proof fn law_observation_moves(ws: SequenceState, player: usize, o: SequenceObservation)
    requires
        observes(ws, player, o),
        player < ws.hands@.len(),
    ensures
        observation_moves(o) == (if player == ws.current_player && !ws.terminated {
            world_moves(ws)
        } else {
            Seq::empty()
        }),
{
}

impl SequenceObservation {
    /// The observer's legal moves: none unless it is the observer's turn in
    /// a game still going on.
    pub fn legal_actions(&self, out: &mut Vec<SequenceAction>)
        requires
            self.config.num_teams > 0,
            known_cards(self.my_hand@),
        ensures
            final(out)@ == observation_moves(*self),
    {
        out.clear();
        if self.terminated || self.current_player != self.player {
            return;
        }
        let team = self.config.player_team(self.player);
        hand_actions(&self.board, &self.locked_chips, team, &self.my_hand, out);
        proof {
            assert(out@ =~= hand_moves(
                self.board@,
                self.locked_chips@,
                team,
                self.my_hand@,
                self.my_hand@.len() as int,
            ));
        }
    }
}

/// A copy of `v`.
fn copy_cards(v: &Vec<Card>) -> (c: Vec<Card>)
    ensures
        c@ == v@,
{
    let mut c: Vec<Card> = Vec::new();
    let mut i: usize = 0;
    while i < v.len()
        invariant
            i <= v@.len(),
            c@ == v@.take(i as int),
        decreases v@.len() - i,
    {
        c.push(v[i]);
        proof {
            assert(v@.take(i as int).push(v@[i as int]) =~= v@.take(i + 1));
        }
        i = i + 1;
    }
    proof {
        assert(v@.take(v@.len() as int) =~= v@);
    }
    c
}

/// A copy of `v`.
fn copy_records(v: &Vec<SequenceRecord>) -> (c: Vec<SequenceRecord>)
    ensures
        c@ == v@,
{
    let mut c: Vec<SequenceRecord> = Vec::new();
    let mut i: usize = 0;
    while i < v.len()
        invariant
            i <= v@.len(),
            c@ == v@.take(i as int),
        decreases v@.len() - i,
    {
        c.push(v[i]);
        proof {
            assert(v@.take(i as int).push(v@[i as int]) =~= v@.take(i + 1));
        }
        i = i + 1;
    }
    proof {
        assert(v@.take(v@.len() as int) =~= v@);
    }
    c
}

/// The Sequence referee for `P` players.
#[derive(Debug, Clone, Copy, PartialEq, Eq)]
pub struct SequenceWorld<const P: usize> {
    /// Players and teams.
    pub config: SequenceConfig,
}

impl<const P: usize> SequenceWorld<P> {
    /// A referee for `config`, which must seat `P` players.
    pub fn new(config: SequenceConfig) -> (w: Self)
        requires
            config.num_players == P,
        ensures
            w.config == config,
    {
        SequenceWorld { config }
    }

    /// The legal moves of the player to move in `ws`.
    pub fn legal_actions(&self, ws: &SequenceState, out: &mut Vec<SequenceAction>)
        requires
            ws.config.num_teams > 0,
            ws.current_player < ws.hands@.len(),
            known_cards(ws.hands@[ws.current_player as int]@),
        ensures
            final(out)@ == world_moves(*ws),
    {
        ws.legal_actions(out);
    }

    /// Whether the game in `ws` is over.
    pub fn is_terminal(&self, ws: &SequenceState) -> (t: bool)
        ensures
            t == ws.terminated,
    {
        ws.terminated
    }

    /// What `player` sees of `ws`: everything public, its own hand (empty
    /// for a seat with no hand), and the sizes of all hands.
    pub fn observe(&self, ws: &SequenceState, player: usize) -> (o: SequenceObservation)
        ensures
            observes(*ws, player, o),
    {
        let my_hand = if player < ws.hands.len() {
            copy_cards(&ws.hands[player])
        } else {
            Vec::new()
        };
        let mut counts: Vec<usize> = Vec::new();
        let mut i: usize = 0;
        while i < ws.hands.len()
            invariant
                i <= ws.hands@.len(),
                counts@.len() == i,
                forall|j: int| 0 <= j < i ==> #[trigger] counts@[j] == ws.hands@[j]@.len(),
            decreases ws.hands@.len() - i,
        {
            counts.push(ws.hands[i].len());
            i = i + 1;
        }
        SequenceObservation {
            config: ws.config,
            player,
            board: ws.board,
            locked_chips: ws.locked_chips,
            sequences: copy_records(&ws.sequences),
            team_sequence_counts: ws.team_sequence_counts,
            current_player: ws.current_player,
            my_hand,
            other_hand_counts: counts,
            deck_remaining: ws.deck.len(),
            discards: copy_cards(&ws.discards),
            total_moves: ws.total_moves,
            terminated: ws.terminated,
            winner_team: ws.winner_team,
        }
    }
}

} // verus!
