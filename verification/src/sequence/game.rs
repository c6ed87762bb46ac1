//! Sequence rules: configuration, actions, dealing, legal moves and turns.
use crate::sequence::board::{
    card_positions, coord_to_index, create_double_deck, detect_sequences, detect_fold,
    candidate_lines, find_card, index_to_coord, is_corner_index, is_one_eyed_jack,
    is_two_eyed_jack, on_board_twice, recs_view, spec_corner_index, spec_one_eyed, spec_two_eyed,
    standard_deck, layout, BoardCell, Card, SequenceRecord,
};
use crate::random::shuffle;
use rand::rngs::ThreadRng;
use vstd::prelude::*;

verus! {

/// rand's thread-local generator, carried through unchanged.
/// Players, teams, hand size and sequences needed to win.
#[derive(Clone, Copy, Debug, PartialEq, Eq)]
pub struct SequenceConfig {
    /// Seated players.
    pub num_players: usize,
    /// Competing teams (2 or 3).
    pub num_teams: usize,
    /// Cards dealt to each player.
    pub cards_per_player: usize,
    /// Sequences a team needs to win.
    pub target_sequences: u8,
}

impl SequenceConfig {
    /// Two players, two teams, seven cards each, two sequences to win.
    pub fn new_2p() -> (c: Self)
        ensures
            c == (SequenceConfig { num_players: 2, num_teams: 2, cards_per_player: 7, target_sequences: 2 }),
    {
        SequenceConfig { num_players: 2, num_teams: 2, cards_per_player: 7, target_sequences: 2 }
    }

    /// Three players, three teams, six cards each, one sequence to win.
    pub fn new_3p() -> (c: Self)
        ensures
            c == (SequenceConfig { num_players: 3, num_teams: 3, cards_per_player: 6, target_sequences: 1 }),
    {
        SequenceConfig { num_players: 3, num_teams: 3, cards_per_player: 6, target_sequences: 1 }
    }

    /// Four players in two teams, six cards each, two sequences to win.
    pub fn new_4p() -> (c: Self)
        ensures
            c == (SequenceConfig { num_players: 4, num_teams: 2, cards_per_player: 6, target_sequences: 2 }),
    {
        SequenceConfig { num_players: 4, num_teams: 2, cards_per_player: 6, target_sequences: 2 }
    }

    /// Six players in `num_teams` teams, five cards each; three teams need
    /// one sequence, otherwise two.
    pub fn new_6p(num_teams: usize) -> (c: Self)
        ensures
            c == (SequenceConfig {
                num_players: 6,
                num_teams,
                cards_per_player: 5,
                target_sequences: if num_teams == 3 { 1u8 } else { 2u8 },
            }),
    {
        let target_sequences: u8 = if num_teams == 3 { 1 } else { 2 };
        SequenceConfig { num_players: 6, num_teams, cards_per_player: 5, target_sequences }
    }

    pub open spec fn spec_team(self, player: int) -> u8 {
        (player % self.num_teams as int) as u8
    }

    /// The team of `player`: players alternate between teams around the table.
    pub fn player_team(&self, player: usize) -> (t: u8)
        requires
            self.num_teams > 0,
        ensures
            t == self.spec_team(player as int),
    {
        (player % self.num_teams) as u8
    }
}

impl Default for SequenceConfig {
    fn default() -> (c: Self)
        ensures
            c == (SequenceConfig { num_players: 2, num_teams: 2, cards_per_player: 7, target_sequences: 2 }),
    {
        Self::new_2p()
    }
}

/// A move in Sequence.
#[derive(Clone, Copy, Debug, PartialEq, Eq, Hash)]
pub enum SequenceAction {
    /// Plays a card and puts a chip on `pos`: one of the card's two cells,
    /// or any free non-corner cell for a two-eyed jack.
    PlayCard {
        /// The card played.
        card: Card,
        /// The cell `(row, column)`.
        pos: (u8, u8),
    },
    /// Plays a one-eyed jack and removes an opponent's unlocked chip at `pos`.
    RemoveToken {
        /// The jack played.
        card: Card,
        /// The cell `(row, column)`.
        pos: (u8, u8),
    },
    /// Discards a card whose two cells are both taken.
    DiscardDeadCard {
        /// The card discarded.
        card: Card,
    },
}

impl SequenceAction {
    pub open spec fn spec_card(self) -> Card {
        match self {
            SequenceAction::PlayCard { card, .. } => card,
            SequenceAction::RemoveToken { card, .. } => card,
            SequenceAction::DiscardDeadCard { card } => card,
        }
    }

    /// The card played or discarded.
    pub fn card(&self) -> (c: Card)
        ensures
            c == self.spec_card(),
    {
        match *self {
            SequenceAction::PlayCard { card, .. } => card,
            SequenceAction::RemoveToken { card, .. } => card,
            SequenceAction::DiscardDeadCard { card } => card,
        }
    }

    /// The target cell, if the action has one.
    pub fn target_pos(&self) -> (p: Option<(u8, u8)>)
        ensures
            p == (match *self {
                SequenceAction::PlayCard { pos, .. } => Some(pos),
                SequenceAction::RemoveToken { pos, .. } => Some(pos),
                SequenceAction::DiscardDeadCard { .. } => None,
            }),
    {
        match *self {
            SequenceAction::PlayCard { pos, .. } => Some(pos),
            SequenceAction::RemoveToken { pos, .. } => Some(pos),
            SequenceAction::DiscardDeadCard { .. } => None,
        }
    }
}


/// The complete state of a game of Sequence.
#[derive(Clone, Debug, PartialEq)]
pub struct SequenceState {
    /// Players and teams.
    pub config: SequenceConfig,
    /// Chips on the board: `None` or `Some(team)`.
    pub board: [Option<u8>; 100],
    /// Chips that belong to a completed sequence and cannot be removed.
    pub locked_chips: [bool; 100],
    /// Completed sequences.
    pub sequences: Vec<SequenceRecord>,
    /// Completed sequences per team.
    pub team_sequence_counts: [u8; 3],
    /// The player to move.
    pub current_player: usize,
    /// Each player's cards.
    pub hands: Vec<Vec<Card>>,
    /// The face-down draw pile; cards are drawn from its end.
    pub deck: Vec<Card>,
    /// The discard pile.
    pub discards: Vec<Card>,
    /// Moves played so far.
    pub total_moves: usize,
    /// Whether the game is over.
    pub terminated: bool,
    /// The winning team, when the game was won.
    pub winner_team: Option<u8>,
}

/// The hands as plain card sequences.
pub open spec fn hands_view(h: Seq<Vec<Card>>) -> Seq<Seq<Card>> {
    h.map_values(|v: Vec<Card>| v@)
}

/// The `n` cards drawn from the end of `deck`, in drawing order (fewer if
/// the deck runs out).
pub open spec fn draw_cards(deck: Seq<Card>, n: nat) -> Seq<Card> {
    let m = if n <= deck.len() { n } else { deck.len() };
    Seq::new(m, |i: int| deck[deck.len() - 1 - i])
}

/// What is left of `deck` after drawing `n` cards.
pub open spec fn after_draw(deck: Seq<Card>, n: nat) -> Seq<Card> {
    let m = if n <= deck.len() { n } else { deck.len() };
    deck.take(deck.len() - m)
}

/// Dealing `per` cards to each of `players` players in turn from the end of
/// `deck`: the hands and the rest of the deck.
pub open spec fn deal(deck: Seq<Card>, players: nat, per: nat) -> (Seq<Seq<Card>>, Seq<Card>)
    decreases players,
{
    if players == 0 {
        (Seq::empty(), deck)
    } else {
        let prev = deal(deck, (players - 1) as nat, per);
        (prev.0.push(draw_cards(prev.1, per)), after_draw(prev.1, per))
    }
}

/// Whether `st` is a fresh game of `config` dealt from `deck`.
pub open spec fn fresh_game(st: SequenceState, config: SequenceConfig, deck: Seq<Card>) -> bool {
    &&& st.config == config
    &&& forall|i: int| 0 <= i < 100 ==> (#[trigger] st.board@[i]) is None
    &&& forall|i: int| 0 <= i < 100 ==> !(#[trigger] st.locked_chips@[i])
    &&& st.sequences@.len() == 0
    &&& st.team_sequence_counts@ == seq![0u8, 0u8, 0u8]
    &&& st.current_player == 0
    &&& hands_view(st.hands@) == deal(deck, config.num_players as nat, config.cards_per_player as nat).0
    &&& st.deck@ == deal(deck, config.num_players as nat, config.cards_per_player as nat).1
    &&& st.discards@.len() == 0
    &&& st.total_moves == 0
    &&& !st.terminated
    &&& st.winner_team is None
}

/// Draws up to `per` cards from the end of `deck`.
fn draw_hand(deck: &mut Vec<Card>, per: usize) -> (hand: Vec<Card>)
    ensures
        hand@ == draw_cards(old(deck)@, per as nat),
        final(deck)@ == after_draw(old(deck)@, per as nat),
{
    let ghost d0 = deck@;
    let mut hand: Vec<Card> = Vec::new();
    let mut i: usize = 0;
    while i < per
        invariant
            i <= per,
            i <= d0.len() ==> hand@ == draw_cards(d0, i as nat) && deck@ == after_draw(d0, i as nat),
            i > d0.len() ==> hand@ == draw_cards(d0, per as nat) && deck@ == after_draw(d0, per as nat),
        decreases per - i,
    {
        let ghost pre = hand@;
        match deck.pop() {
            Some(card) => {
                hand.push(card);
                proof {
                    assert(hand@ =~= draw_cards(d0, (i + 1) as nat));
                    assert(deck@ =~= after_draw(d0, (i + 1) as nat));
                }
            },
            None => {
                proof {
                    assert(draw_cards(d0, i as nat) =~= draw_cards(d0, per as nat));
                    assert(after_draw(d0, i as nat) =~= after_draw(d0, per as nat));
                }
            },
        }
        i = i + 1;
    }
    proof {
        if per <= d0.len() {
        }
    }
    hand
}

impl SequenceState {
    /// A fresh game of `config` with cards dealt from the end of `deck`.
    pub fn new_with_deck(config: SequenceConfig, deck: Vec<Card>) -> (st: Self)
        ensures
            fresh_game(st, config, deck@),
    {
        let ghost d0 = deck@;
        let mut deck = deck;
        let mut hands: Vec<Vec<Card>> = Vec::new();
        let mut p: usize = 0;
        while p < config.num_players
            invariant
                p <= config.num_players,
                hands_view(hands@) == deal(d0, p as nat, config.cards_per_player as nat).0,
                deck@ == deal(d0, p as nat, config.cards_per_player as nat).1,
            decreases config.num_players - p,
        {
            let hand = draw_hand(&mut deck, config.cards_per_player);
            hands.push(hand);
            proof {
                assert(hands_view(hands@) =~= deal(d0, (p + 1) as nat, config.cards_per_player as nat).0);
            }
            p = p + 1;
        }
        let st = SequenceState {
            config,
            board: [None; 100],
            locked_chips: [false; 100],
            sequences: Vec::new(),
            team_sequence_counts: [0u8; 3],
            current_player: 0,
            hands,
            deck,
            discards: Vec::new(),
            total_moves: 0,
            terminated: false,
            winner_team: None,
        };
        assert(st.team_sequence_counts@ =~= seq![0u8, 0u8, 0u8]);
        st
    }

    /// A fresh game of `config` dealt from a shuffled double deck.
    pub fn new(config: SequenceConfig, rng: &mut ThreadRng) -> (st: Self)
        ensures
            exists|d: Seq<Card>|
                d.to_multiset() == (standard_deck() + standard_deck()).to_multiset() && #[trigger] fresh_game(
                    st,
                    config,
                    d,
                ),
    {
        let mut deck = create_double_deck();
        shuffle(&mut deck, rng);
        let ghost d = deck@;
        let st = Self::new_with_deck(config, deck);
        assert(fresh_game(st, config, d));
        st
    }

    /// The team of the player to move.
    pub fn active_team(&self) -> (t: u8)
        requires
            self.config.num_teams > 0,
        ensures
            t == self.config.spec_team(self.current_player as int),
    {
        self.config.player_team(self.current_player)
    }

    /// Whether `card` is dead: not a jack, and both its cells are taken.
    pub fn is_dead_card(&self, card: Card) -> (dead: bool)
        requires
            spec_two_eyed(card) || spec_one_eyed(card) || on_board_twice(card),
        ensures
            dead == spec_dead(self.board@, card),
    {
        if is_two_eyed_jack(card) || is_one_eyed_jack(card) {
            return false;
        }
        let positions = card_positions(card);
        let idx0 = coord_to_index(positions[0].0, positions[0].1);
        let idx1 = coord_to_index(positions[1].0, positions[1].1);
        proof {
            lemma_card_cells(card);
        }
        self.board[idx0].is_some() && self.board[idx1].is_some()
    }
}

/// Whether `card` is dead on `board`: not a jack, and both its cells are taken.
pub open spec fn spec_dead(board: Seq<Option<u8>>, card: Card) -> bool {
    &&& !spec_two_eyed(card)
    &&& !spec_one_eyed(card)
    &&& board[find_card(card, 0)] is Some
    &&& board[find_card(card, find_card(card, 0) + 1)] is Some
}

/// The cells of a card shown twice are on the board, and a row and column
/// give the cell back.
pub proof fn lemma_card_cells(card: Card)
    requires
        on_board_twice(card),
    ensures
        0 <= find_card(card, 0) < find_card(card, find_card(card, 0) + 1) < 100,
        (find_card(card, 0) / 10) * 10 + find_card(card, 0) % 10 == find_card(card, 0),
        (find_card(card, find_card(card, 0) + 1) / 10) * 10 + find_card(card, find_card(card, 0) + 1) % 10
            == find_card(card, find_card(card, 0) + 1),
{
    lemma_find_card_range(card, 0);
    lemma_find_card_range(card, find_card(card, 0) + 1);
}

/// `find_card` looks no earlier than where it starts.
pub proof fn lemma_find_card_range(card: Card, k: int)
    requires
        0 <= k,
    ensures
        k <= find_card(card, k) <= 100 || find_card(card, k) == 100,
    decreases 100 - k,
{
    if k < 100 && !(crate::sequence::board::layout()[k] == crate::sequence::board::BoardCell::Card(card)) {
        lemma_find_card_range(card, k + 1);
    }
}


/// The cell `(row, column)` of flat index `i`.
pub open spec fn pos_of(i: int) -> (u8, u8) {
    ((i / 10) as u8, (i % 10) as u8)
}

/// Placing `card` (a two-eyed jack) on each free non-corner cell below `k`.
pub open spec fn wild_moves(board: Seq<Option<u8>>, card: Card, k: int) -> Seq<SequenceAction>
    decreases k,
{
    if k <= 0 {
        Seq::empty()
    } else {
        let rest = wild_moves(board, card, k - 1);
        if !spec_corner_index(k - 1) && board[k - 1] is None {
            rest.push(SequenceAction::PlayCard { card, pos: pos_of(k - 1) })
        } else {
            rest
        }
    }
}

/// Removing, with `card` (a one-eyed jack), each unlocked chip of another
/// team than `team` below `k`.
pub open spec fn removal_moves(
    board: Seq<Option<u8>>,
    locked: Seq<bool>,
    team: u8,
    card: Card,
    k: int,
) -> Seq<SequenceAction>
    decreases k,
{
    if k <= 0 {
        Seq::empty()
    } else {
        let rest = removal_moves(board, locked, team, card, k - 1);
        if board[k - 1] is Some && board[k - 1] != Some(team) && !locked[k - 1] {
            rest.push(SequenceAction::RemoveToken { card, pos: pos_of(k - 1) })
        } else {
            rest
        }
    }
}

/// Placing `card` on whichever of its two cells is free.
pub open spec fn regular_moves(board: Seq<Option<u8>>, card: Card) -> Seq<SequenceAction> {
    let p0 = find_card(card, 0);
    let p1 = find_card(card, p0 + 1);
    let a: Seq<SequenceAction> = if board[p0] is None {
        seq![SequenceAction::PlayCard { card, pos: pos_of(p0) }]
    } else {
        Seq::empty()
    };
    if board[p1] is None {
        a.push(SequenceAction::PlayCard { card, pos: pos_of(p1) })
    } else {
        a
    }
}

/// The moves one card offers to `team`.
pub open spec fn card_moves(board: Seq<Option<u8>>, locked: Seq<bool>, team: u8, card: Card) -> Seq<
    SequenceAction,
> {
    if spec_two_eyed(card) {
        wild_moves(board, card, 100)
    } else if spec_one_eyed(card) {
        removal_moves(board, locked, team, card, 100)
    } else if spec_dead(board, card) {
        seq![SequenceAction::DiscardDeadCard { card }]
    } else {
        regular_moves(board, card)
    }
}

/// The moves of the first `k` cards of `hand`, each distinct card once, in
/// hand order.
pub open spec fn hand_moves(
    board: Seq<Option<u8>>,
    locked: Seq<bool>,
    team: u8,
    hand: Seq<Card>,
    k: int,
) -> Seq<SequenceAction>
    decreases k,
{
    if k <= 0 {
        Seq::empty()
    } else {
        let rest = hand_moves(board, locked, team, hand, k - 1);
        if hand.take(k - 1).contains(hand[k - 1]) {
            rest
        } else {
            rest + card_moves(board, locked, team, hand[k - 1])
        }
    }
}

/// Whether every card of `cards` is a jack or is shown twice on the board.
pub open spec fn known_cards(cards: Seq<Card>) -> bool {
    forall|i: int|
        0 <= i < cards.len() ==> spec_two_eyed(#[trigger] cards[i]) || spec_one_eyed(cards[i])
            || on_board_twice(cards[i])
}

/// Appends the moves `card` offers to `team` to `out`.
pub fn push_card_moves(
    board: &[Option<u8>; 100],
    locked: &[bool; 100],
    team: u8,
    card: Card,
    out: &mut Vec<SequenceAction>,
)
    requires
        spec_two_eyed(card) || spec_one_eyed(card) || on_board_twice(card),
    ensures
        final(out)@ == old(out)@ + card_moves(board@, locked@, team, card),
{
    let ghost o0 = out@;
    if is_two_eyed_jack(card) {
        let mut idx: usize = 0;
        while idx < 100
            invariant
                idx <= 100,
                out@ == o0 + wild_moves(board@, card, idx as int),
            decreases 100 - idx,
        {
            if !is_corner_index(idx) && board[idx].is_none() {
                let pos = index_to_coord(idx);
                out.push(SequenceAction::PlayCard { card, pos });
                proof {
                    assert(out@ =~= o0 + wild_moves(board@, card, idx + 1));
                }
            }
            idx = idx + 1;
        }
    } else if is_one_eyed_jack(card) {
        let mut idx: usize = 0;
        while idx < 100
            invariant
                idx <= 100,
                out@ == o0 + removal_moves(board@, locked@, team, card, idx as int),
            decreases 100 - idx,
        {
            let removable = match board[idx] {
                Some(t) => t != team && !locked[idx],
                None => false,
            };
            if removable {
                let pos = index_to_coord(idx);
                out.push(SequenceAction::RemoveToken { card, pos });
                proof {
                    assert(out@ =~= o0 + removal_moves(board@, locked@, team, card, idx + 1));
                }
            }
            idx = idx + 1;
        }
    } else {
        let positions = card_positions(card);
        proof {
            lemma_card_cells(card);
        }
        let idx0 = coord_to_index(positions[0].0, positions[0].1);
        let idx1 = coord_to_index(positions[1].0, positions[1].1);
        if board[idx0].is_some() && board[idx1].is_some() {
            out.push(SequenceAction::DiscardDeadCard { card });
            proof {
                assert(out@ =~= o0 + seq![SequenceAction::DiscardDeadCard { card }]);
            }
        } else {
            if board[idx0].is_none() {
                out.push(SequenceAction::PlayCard { card, pos: positions[0] });
            }
            if board[idx1].is_none() {
                out.push(SequenceAction::PlayCard { card, pos: positions[1] });
            }
            proof {
                let p0 = find_card(card, 0);
                let p1 = find_card(card, p0 + 1);
                assert(pos_of(p0) == positions[0]);
                assert(pos_of(p1) == positions[1]);
                assert(out@ =~= o0 + regular_moves(board@, card));
            }
        }
    }
}

/// Whether `c` is among the first `n` cards of `v`.
fn seen_before(v: &Vec<Card>, n: usize, c: Card) -> (b: bool)
    requires
        n <= v@.len(),
    ensures
        b == v@.take(n as int).contains(c),
{
    let mut i: usize = 0;
    while i < n
        invariant
            i <= n <= v@.len(),
            forall|j: int| 0 <= j < i ==> v@[j] != c,
        decreases n - i,
    {
        if v[i] == c {
            assert(v@.take(n as int)[i as int] == c);
            return true;
        }
        i = i + 1;
    }
    false
}

/// The moves of `hand` for `team`: for each distinct card in hand order, its
/// moves (see `card_moves`).
pub fn hand_actions(
    board: &[Option<u8>; 100],
    locked: &[bool; 100],
    team: u8,
    hand: &Vec<Card>,
    out: &mut Vec<SequenceAction>,
)
    requires
        known_cards(hand@),
    ensures
        final(out)@ == old(out)@ + hand_moves(board@, locked@, team, hand@, hand@.len() as int),
{
    let ghost o0 = out@;
    let mut k: usize = 0;
    while k < hand.len()
        invariant
            k <= hand@.len(),
            known_cards(hand@),
            out@ == o0 + hand_moves(board@, locked@, team, hand@, k as int),
        decreases hand@.len() - k,
    {
        let card = hand[k];
        assert(spec_two_eyed(hand@[k as int]) || spec_one_eyed(hand@[k as int]) || on_board_twice(hand@[k as int]));
        if !seen_before(hand, k, card) {
            push_card_moves(board, locked, team, card, out);
            proof {
                assert(out@ =~= o0 + hand_moves(board@, locked@, team, hand@, k + 1));
            }
        }
        k = k + 1;
    }
}


/// The first position at or after `k` of `card` in `hand` (or the length).
pub open spec fn first_index(hand: Seq<Card>, card: Card, k: int) -> int
    decreases hand.len() - k,
{
    if k >= hand.len() || k < 0 {
        hand.len() as int
    } else if hand[k] == card {
        k
    } else {
        first_index(hand, card, k + 1)
    }
}

/// `hand` after playing `card`: its first copy is replaced by the last card
/// of the hand, which is dropped (unchanged if `card` is not in hand).
pub open spec fn hand_without(hand: Seq<Card>, card: Card) -> Seq<Card> {
    let p = first_index(hand, card, 0);
    if p < hand.len() {
        hand.update(p, hand.last()).drop_last()
    } else {
        hand
    }
}

/// Occupied non-corner cells below `k`.
pub open spec fn occupied_count(board: Seq<Option<u8>>, k: int) -> nat
    decreases k,
{
    if k <= 0 {
        0
    } else {
        occupied_count(board, k - 1) + if !spec_corner_index(k - 1) && board[k - 1] is Some {
            1nat
        } else {
            0nat
        }
    }
}

/// The flat index of a cell.
pub open spec fn index_of(pos: (u8, u8)) -> int {
    pos.0 * 10 + pos.1
}

/// Whether `action` is allowed on the board for `team`: a chip goes on a free
/// non-corner cell; a removed chip is an unlocked chip of another team.
pub open spec fn board_move_ok(st: SequenceState, team: u8, action: SequenceAction) -> bool {
    match action {
        SequenceAction::PlayCard { pos, .. } => pos.0 < 10 && pos.1 < 10 && !spec_corner_index(index_of(pos))
            && st.board@[index_of(pos)] is None,
        SequenceAction::RemoveToken { pos, .. } => pos.0 < 10 && pos.1 < 10 && st.board@[index_of(pos)] is Some
            && st.board@[index_of(pos)] != Some(team) && !st.locked_chips@[index_of(pos)],
        SequenceAction::DiscardDeadCard { .. } => true,
    }
}

/// The board after `action` by `team`.
pub open spec fn board_after(board: Seq<Option<u8>>, team: u8, action: SequenceAction) -> Seq<Option<u8>> {
    match action {
        SequenceAction::PlayCard { pos, .. } => board.update(index_of(pos), Some(team)),
        SequenceAction::RemoveToken { pos, .. } => board.update(index_of(pos), None),
        SequenceAction::DiscardDeadCard { .. } => board,
    }
}

/// What detection finds after `action` by `team` (nothing unless a chip was placed).
pub open spec fn detection_after(st: SequenceState, team: u8, action: SequenceAction) -> (
    nat,
    Seq<bool>,
    Seq<(u8, Seq<u8>)>,
) {
    match action {
        SequenceAction::PlayCard { pos, .. } => detect_fold(
            board_after(st.board@, team, action),
            team,
            candidate_lines(Some(pos)),
            st.locked_chips@,
            recs_view(st.sequences@),
        ),
        _ => (0, st.locked_chips@, recs_view(st.sequences@)),
    }
}

impl SequenceState {
    /// The legal moves of the player to move (none once the game is over).
    pub fn legal_actions(&self, out: &mut Vec<SequenceAction>)
        requires
            self.config.num_teams > 0,
            self.current_player < self.hands@.len(),
            known_cards(self.hands@[self.current_player as int]@),
        ensures
            final(out)@ == (if self.terminated {
                Seq::empty()
            } else {
                hand_moves(
                    self.board@,
                    self.locked_chips@,
                    self.config.spec_team(self.current_player as int),
                    self.hands@[self.current_player as int]@,
                    self.hands@[self.current_player as int]@.len() as int,
                )
            }),
    {
        out.clear();
        if self.terminated {
            return;
        }
        let team = self.active_team();
        let ghost o0 = out@;
        hand_actions(&self.board, &self.locked_chips, team, &self.hands[self.current_player], out);
        proof {
            assert(out@ =~= hand_moves(
                self.board@,
                self.locked_chips@,
                team,
                self.hands@[self.current_player as int]@,
                self.hands@[self.current_player as int]@.len() as int,
            ));
        }
    }
}


/// How one turn changes the state: the card leaves the hand and goes on the
/// discard pile; the board changes as the action says, with detection after
/// a placed chip; a team reaching its target wins at once; otherwise the
/// player draws (the discards are shuffled into a new draw pile when it is
/// empty) and a board with all 96 non-corner cells taken ends in a draw.
/// The turn passes in every case.
pub open spec fn step_ok(old: SequenceState, new: SequenceState, action: SequenceAction) -> bool {
    let a = old.current_player as int;
    let team = old.config.spec_team(a);
    let card = action.spec_card();
    let hand1 = hand_without(old.hands@[a]@, card);
    let disc1 = old.discards@.push(card);
    let board1 = board_after(old.board@, team, action);
    let det = detection_after(old, team, action);
    let count1 = old.team_sequence_counts@[team as int] + det.0;
    let won = action is PlayCard && count1 >= old.config.target_sequences;
    let full = occupied_count(board1, 100) == 96;
    &&& new.config == old.config
    &&& new.board@ == board1
    &&& new.locked_chips@ == det.1
    &&& recs_view(new.sequences@) == det.2
    &&& new.team_sequence_counts@ == old.team_sequence_counts@.update(team as int, count1 as u8)
    &&& new.current_player == (old.current_player + 1) % (old.config.num_players as int)
    &&& new.total_moves == old.total_moves + 1
    &&& new.hands@.len() == old.hands@.len()
    &&& forall|p: int| 0 <= p < old.hands@.len() && p != a ==> (#[trigger] new.hands@[p])@ == old.hands@[p]@
    &&& won ==> new.terminated && new.winner_team == Some(team) && new.hands@[a]@ == hand1 && new.deck@
        == old.deck@ && new.discards@ == disc1
    &&& !won && old.deck@.len() > 0 ==> new.hands@[a]@ == hand1.push(old.deck@.last()) && new.deck@
        == old.deck@.drop_last() && new.discards@ == disc1
    &&& !won && old.deck@.len() == 0 ==> new.discards@.len() == 0 && new.hands@[a]@.len() == hand1.len() + 1
        && new.hands@[a]@.drop_last() == hand1 && new.deck@.push(new.hands@[a]@.last()).to_multiset()
        == disc1.to_multiset()
    &&& !won ==> new.terminated == full && new.winner_team == (if full {
        None
    } else {
        old.winner_team
    })
}

/// Checking `lines` finds at most one sequence per line.
pub proof fn lemma_fold_count(
    board: Seq<Option<u8>>,
    team: u8,
    lines: Seq<Seq<(int, int)>>,
    locked: Seq<bool>,
    seqs: Seq<(u8, Seq<u8>)>,
)
    ensures
        detect_fold(board, team, lines, locked, seqs).0 <= lines.len(),
    decreases lines.len(),
{
    if lines.len() > 0 {
        lemma_fold_count(board, team, lines.drop_last(), locked, seqs);
    }
}

/// Number of occupied non-corner cells.
fn count_occupied(board: &[Option<u8>; 100]) -> (n: usize)
    ensures
        n == occupied_count(board@, 100),
{
    let mut n: usize = 0;
    let mut i: usize = 0;
    while i < 100
        invariant
            i <= 100,
            n == occupied_count(board@, i as int),
            n <= i,
        decreases 100 - i,
    {
        if !is_corner_index(i) && board[i].is_some() {
            n = n + 1;
        }
        i = i + 1;
    }
    n
}

/// Removes the first copy of `card` from `hand` (see `hand_without`).
fn remove_card(hand: &mut Vec<Card>, card: Card)
    ensures
        final(hand)@ == hand_without(old(hand)@, card),
{
    let ghost h0 = hand@;
    let mut i: usize = 0;
    while i < hand.len() && hand[i] != card
        invariant
            hand@ == h0,
            i <= h0.len(),
            first_index(h0, card, 0) == first_index(h0, card, i as int),
        decreases h0.len() - i,
    {
        i = i + 1;
    }
    if i < hand.len() {
        assert(first_index(h0, card, i as int) == i);
        hand.swap_remove(i);
    }
}

impl SequenceState {
    /// Plays one turn for the player to move (nothing once the game is over;
    /// see `step_ok`).
    pub fn step(&mut self, action: &SequenceAction, rng: &mut ThreadRng)
        requires
            0 < old(self).config.num_teams <= 3,
            old(self).config.num_players > 0,
            old(self).current_player < old(self).config.num_players,
            old(self).hands@.len() == old(self).config.num_players,
            old(self).total_moves < usize::MAX,
            !old(self).terminated ==> board_move_ok(
                *old(self),
                old(self).config.spec_team(old(self).current_player as int),
                *action,
            ),
            !old(self).terminated ==> old(self).team_sequence_counts@[old(self).config.spec_team(
                old(self).current_player as int,
            ) as int] <= 235,
        ensures
            old(self).terminated ==> *final(self) == *old(self),
            !old(self).terminated ==> step_ok(*old(self), *final(self), *action),
    {
        if self.terminated {
            return;
        }
        let ghost s0 = *self;
        let a = self.current_player;
        let team = self.active_team();
        let card = action.card();
        let mut hand: Vec<Card> = Vec::new();
        std::mem::swap(&mut hand, &mut self.hands[a]);
        remove_card(&mut hand, card);
        self.discards.push(card);
        let ghost hand1 = hand@;
        match *action {
            SequenceAction::PlayCard { pos, .. } => {
                let idx = coord_to_index(pos.0, pos.1);
                self.board[idx] = Some(team);
                let ghost l_old = self.locked_chips@;
                let ghost r_old = recs_view(self.sequences@);
                let new_seqs = detect_sequences(
                    &self.board,
                    team,
                    Some(pos),
                    &mut self.locked_chips,
                    &mut self.sequences,
                );
                proof {
                    lemma_fold_count(self.board@, team, candidate_lines(Some(pos)), l_old, r_old);
                    assert(candidate_lines(Some(pos)).len() == 20);
                }
                let t = team as usize;
                self.team_sequence_counts[t] = self.team_sequence_counts[t] + new_seqs as u8;
                if self.team_sequence_counts[t] >= self.config.target_sequences {
                    self.terminated = true;
                    self.winner_team = Some(team);
                }
            },
            SequenceAction::RemoveToken { pos, .. } => {
                let idx = coord_to_index(pos.0, pos.1);
                self.board[idx] = None;
            },
            SequenceAction::DiscardDeadCard { .. } => {},
        }
        if !self.terminated {
            if self.deck.len() == 0 && self.discards.len() > 0 {
                let ghost d1 = self.discards@;
                self.deck.append(&mut self.discards);
                assert(self.deck@ =~= d1);
                shuffle(&mut self.deck, rng);
            }
            let ghost pre_pop = self.deck@;
            match self.deck.pop() {
                Some(new_card) => {
                    hand.push(new_card);
                    assert(self.deck@.push(new_card) =~= pre_pop);
                },
                None => {},
            }
        }
        let ghost hand2 = hand@;
        self.hands.set(a, hand);
        self.current_player = (self.current_player + 1) % self.config.num_players;
        self.total_moves = self.total_moves + 1;
        if !self.terminated {
            let occupied = count_occupied(&self.board);
            if occupied == 96 {
                self.terminated = true;
                self.winner_team = None;
            }
        }
        proof {
            let st = *self;
            let old_st = s0;
            let ai = a as int;
            let card0 = action.spec_card();
            assert(st.config == old_st.config);
            assert(st.board@ == board_after(old_st.board@, team, *action));
            assert(st.locked_chips@ == detection_after(old_st, team, *action).1);
            assert(recs_view(st.sequences@) == detection_after(old_st, team, *action).2);
            assert(st.current_player == (old_st.current_player + 1) % (old_st.config.num_players as int));
            assert(st.hands@.len() == old_st.hands@.len());
            assert(forall|p: int| 0 <= p < old_st.hands@.len() && p != ai ==> (#[trigger] st.hands@[p])@ == old_st.hands@[p]@);
            assert(hand1 == hand_without(old_st.hands@[ai]@, card0));
            assert(self.hands@[a as int]@ == hand2);
            let det = detection_after(old_st, team, *action);
            let count1 = old_st.team_sequence_counts@[team as int] + det.0;
            let won = *action is PlayCard && count1 >= old_st.config.target_sequences;
            let full = occupied_count(st.board@, 100) == 96;
            let disc1 = old_st.discards@.push(card0);
            assert(won ==> st.terminated && st.winner_team == Some(team) && st.hands@[ai]@ == hand1);
            assert(won ==> st.deck@ == old_st.deck@ && st.discards@ == disc1);
            assert(!won && old_st.deck@.len() > 0 ==> st.hands@[ai]@ == hand1.push(old_st.deck@.last()));
            assert(!won && old_st.deck@.len() > 0 ==> st.deck@ == old_st.deck@.drop_last() && st.discards@ == disc1);
            assert(!won && old_st.deck@.len() == 0 ==> st.discards@.len() == 0);
            assert(!won && old_st.deck@.len() == 0 ==> st.hands@[ai]@.len() == hand1.len() + 1);
            assert(!won && old_st.deck@.len() == 0 ==> st.hands@[ai]@.drop_last() == hand1);
            assert(!won && old_st.deck@.len() == 0 ==> st.deck@.push(st.hands@[ai]@.last()).to_multiset() == disc1.to_multiset());
            assert(!won ==> st.terminated == full);
            assert(self.team_sequence_counts@ =~= s0.team_sequence_counts@.update(
                team as int,
                (s0.team_sequence_counts@[team as int] + detection_after(s0, team, *action).0) as u8,
            ));
        }
    }
}


/// A found cell shows the card looked for.
proof fn lemma_find_card_shows(card: Card, k: int)
    requires
        0 <= k,
        find_card(card, k) < 100,
    ensures
        layout()[find_card(card, k)] == BoardCell::Card(card),
    decreases 100 - k,
{
    if k < 100 && !(layout()[k] == BoardCell::Card(card)) {
        lemma_find_card_shows(card, k + 1);
    }
}

/// The corners of the layout are corner cells.
proof fn lemma_layout_corners()
    ensures
        layout()[0] == BoardCell::Corner,
        layout()[9] == BoardCell::Corner,
        layout()[90] == BoardCell::Corner,
        layout()[99] == BoardCell::Corner,
{
}

/// A flat index below 100 and its cell give each other back.
proof fn lemma_pos_of(i: int)
    requires
        0 <= i < 100,
    ensures
        pos_of(i).0 < 10,
        pos_of(i).1 < 10,
        index_of(pos_of(i)) == i,
{
    assert(0 <= i / 10 < 10 && 0 <= i % 10 < 10 && (i / 10) * 10 + i % 10 == i) by (nonlinear_arith)
        requires
            0 <= i < 100,
    ;
}

/// The moves a card offers are allowed on the board.
proof fn lemma_card_moves_allowed(st: SequenceState, team: u8, card: Card, a: SequenceAction)
    requires
        st.board@.len() == 100,
        st.locked_chips@.len() == 100,
        spec_two_eyed(card) || spec_one_eyed(card) || on_board_twice(card),
        card_moves(st.board@, st.locked_chips@, team, card).contains(a),
    ensures
        board_move_ok(st, team, a),
{
    let board = st.board@;
    let locked = st.locked_chips@;
    if spec_two_eyed(card) {
        lemma_wild_allowed(st, team, card, 100, a);
    } else if spec_one_eyed(card) {
        lemma_removal_allowed(st, team, card, 100, a);
    } else if spec_dead(board, card) {
    } else {
        lemma_card_cells(card);
        let p0 = find_card(card, 0);
        let p1 = find_card(card, p0 + 1);
        lemma_find_card_shows(card, 0);
        lemma_find_card_shows(card, p0 + 1);
        lemma_layout_corners();
        lemma_pos_of(p0);
        lemma_pos_of(p1);
        let m = regular_moves(board, card);
        let i = choose|i: int| 0 <= i < m.len() && m[i] == a;
        let first: Seq<SequenceAction> = if board[p0] is None {
            seq![SequenceAction::PlayCard { card, pos: pos_of(p0) }]
        } else {
            Seq::empty()
        };
        if i < first.len() {
            assert(a == SequenceAction::PlayCard { card, pos: pos_of(p0) });
        } else {
            assert(a == SequenceAction::PlayCard { card, pos: pos_of(p1) });
        }
    }
}

proof fn lemma_wild_allowed(st: SequenceState, team: u8, card: Card, k: int, a: SequenceAction)
    requires
        st.board@.len() == 100,
        k <= 100,
        wild_moves(st.board@, card, k).contains(a),
    ensures
        board_move_ok(st, team, a),
    decreases k,
{
    if k > 0 {
        let rest = wild_moves(st.board@, card, k - 1);
        if rest.contains(a) {
            lemma_wild_allowed(st, team, card, k - 1, a);
        } else {
            let m = wild_moves(st.board@, card, k);
            let i = choose|i: int| 0 <= i < m.len() && m[i] == a;
            if !spec_corner_index(k - 1) && st.board@[k - 1] is None {
                if i < rest.len() {
                    assert(rest[i] == a);
                }
                lemma_pos_of(k - 1);
            }
        }
    }
}

proof fn lemma_removal_allowed(st: SequenceState, team: u8, card: Card, k: int, a: SequenceAction)
    requires
        st.board@.len() == 100,
        st.locked_chips@.len() == 100,
        k <= 100,
        removal_moves(st.board@, st.locked_chips@, team, card, k).contains(a),
    ensures
        board_move_ok(st, team, a),
    decreases k,
{
    if k > 0 {
        let rest = removal_moves(st.board@, st.locked_chips@, team, card, k - 1);
        if rest.contains(a) {
            lemma_removal_allowed(st, team, card, k - 1, a);
        } else {
            let m = removal_moves(st.board@, st.locked_chips@, team, card, k);
            let i = choose|i: int| 0 <= i < m.len() && m[i] == a;
            let b = st.board@[k - 1];
            if b is Some && b != Some(team) && !st.locked_chips@[k - 1] {
                if i < rest.len() {
                    assert(rest[i] == a);
                }
                lemma_pos_of(k - 1);
            }
        }
    }
}

proof fn lemma_hand_moves_allowed(st: SequenceState, team: u8, hand: Seq<Card>, k: int, a: SequenceAction)
    requires
        st.board@.len() == 100,
        st.locked_chips@.len() == 100,
        known_cards(hand),
        k <= hand.len(),
        hand_moves(st.board@, st.locked_chips@, team, hand, k).contains(a),
    ensures
        board_move_ok(st, team, a),
    decreases k,
{
    if k > 0 {
        let rest = hand_moves(st.board@, st.locked_chips@, team, hand, k - 1);
        if rest.contains(a) {
            lemma_hand_moves_allowed(st, team, hand, k - 1, a);
        } else {
            let card = hand[k - 1];
            let cm = card_moves(st.board@, st.locked_chips@, team, card);
            if !hand.take(k - 1).contains(card) {
                let all = rest + cm;
                let i = choose|i: int| 0 <= i < all.len() && all[i] == a;
                if i < rest.len() {
                    assert(rest[i] == a);
                } else {
                    assert(cm[i - rest.len()] == a);
                    lemma_card_moves_allowed(st, team, card, a);
                }
            }
        }
    }
}

/// Every move `legal_actions` lists for the player to move is allowed on
/// the board (as `step` requires): a chip goes on a free card cell, or a
/// removable opponent chip is taken off.
pub proof fn law_listed_moves_allowed(st: SequenceState, a: SequenceAction)
    requires
        st.config.num_teams > 0,
        st.current_player < st.hands@.len(),
        known_cards(st.hands@[st.current_player as int]@),
        hand_moves(
            st.board@,
            st.locked_chips@,
            st.config.spec_team(st.current_player as int),
            st.hands@[st.current_player as int]@,
            st.hands@[st.current_player as int]@.len() as int,
        ).contains(a),
    ensures
        board_move_ok(st, st.config.spec_team(st.current_player as int), a),
{
    let hand = st.hands@[st.current_player as int]@;
    lemma_hand_moves_allowed(st, st.config.spec_team(st.current_player as int), hand, hand.len() as int, a);
}


/// `i` is one of the first two cells of the layout that show `card`.
pub open spec fn among_first_two_cells(card: Card, i: int) -> bool {
    &&& 0 <= i < 100
    &&& layout()[i] == BoardCell::Card(card)
    &&& forall|j: int, k: int|
        0 <= j < k < i ==> !(#[trigger] layout()[j] == BoardCell::Card(card) && #[trigger] layout()[k]
            == BoardCell::Card(card))
}

/// The search for `card` from `k` stops at or before any cell from `k` on
/// that shows it.
proof fn lemma_find_card_at_most(card: Card, k: int, i: int)
    requires
        0 <= k <= i < 100,
        layout()[i] == BoardCell::Card(card),
    ensures
        find_card(card, k) <= i,
    decreases i - k,
{
    if k < i && !(layout()[k] == BoardCell::Card(card)) {
        lemma_find_card_at_most(card, k + 1, i);
    }
}

/// One of the first two cells showing `card` is one of the two cells the
/// game gives the card.
proof fn lemma_first_two_found(card: Card, i: int)
    requires
        among_first_two_cells(card, i),
    ensures
        i == find_card(card, 0) || i == find_card(card, find_card(card, 0) + 1),
{
    let p0 = find_card(card, 0);
    lemma_find_card_at_most(card, 0, i);
    if p0 != i {
        lemma_find_card_shows(card, 0);
        lemma_find_card_range(card, 0);
        let p1 = find_card(card, p0 + 1);
        lemma_find_card_at_most(card, p0 + 1, i);
        lemma_find_card_range(card, p0 + 1);
        if p1 != i {
            lemma_find_card_shows(card, p0 + 1);
            assert(layout()[p0] == BoardCell::Card(card) && layout()[p1] == BoardCell::Card(card));
        }
    }
}

/// Every move a card of the hand offers is among the moves of the hand.
proof fn lemma_hand_moves_include(
    board: Seq<Option<u8>>,
    locked: Seq<bool>,
    team: u8,
    hand: Seq<Card>,
    k: int,
    j: int,
    a: SequenceAction,
)
    requires
        0 <= j < k <= hand.len(),
        card_moves(board, locked, team, hand[j]).contains(a),
    ensures
        hand_moves(board, locked, team, hand, k).contains(a),
    decreases k,
{
    let rest = hand_moves(board, locked, team, hand, k - 1);
    let cm = card_moves(board, locked, team, hand[k - 1]);
    if j < k - 1 {
        lemma_hand_moves_include(board, locked, team, hand, k - 1, j, a);
        let t = choose|t: int| 0 <= t < rest.len() && rest[t] == a;
        if !hand.take(k - 1).contains(hand[k - 1]) {
            assert((rest + cm)[t] == a);
        }
    } else if hand.take(k - 1).contains(hand[k - 1]) {
        let j2 = choose|j2: int| 0 <= j2 < hand.take(k - 1).len() && #[trigger] hand.take(k - 1)[j2] == hand[k - 1];
        assert(hand[j2] == hand[j]);
        lemma_hand_moves_include(board, locked, team, hand, k - 1, j2, a);
    } else {
        let t = choose|t: int| 0 <= t < cm.len() && cm[t] == a;
        assert((rest + cm)[rest.len() + t] == a);
    }
}

/// Completeness of the listed moves for ordinary cards: when the player to
/// move holds a card that is not a jack, and one of the first two layout
/// cells showing that card is free, placing the card there is among the
/// moves `legal_actions` lists.
pub proof fn law_free_card_cells_listed(st: SequenceState, card: Card, i: int)
    requires
        st.current_player < st.hands@.len(),
        st.board@.len() == 100,
        st.hands@[st.current_player as int]@.contains(card),
        !spec_two_eyed(card),
        !spec_one_eyed(card),
        among_first_two_cells(card, i),
        st.board@[i] is None,
    ensures
        hand_moves(
            st.board@,
            st.locked_chips@,
            st.config.spec_team(st.current_player as int),
            st.hands@[st.current_player as int]@,
            st.hands@[st.current_player as int]@.len() as int,
        ).contains(SequenceAction::PlayCard { card, pos: ((i / 10) as u8, (i % 10) as u8) }),
{
    let hand = st.hands@[st.current_player as int]@;
    let board = st.board@;
    let team = st.config.spec_team(st.current_player as int);
    let j = choose|j: int| 0 <= j < hand.len() && hand[j] == card;
    lemma_first_two_found(card, i);
    let p0 = find_card(card, 0);
    let p1 = find_card(card, p0 + 1);
    let a = SequenceAction::PlayCard { card, pos: ((i / 10) as u8, (i % 10) as u8) };
    assert(!spec_dead(board, card));
    let m = regular_moves(board, card);
    if i == p0 {
        assert(m[0] == a);
    } else {
        assert(m[m.len() - 1] == a);
    }
    assert(card_moves(board, st.locked_chips@, team, card) == m);
    lemma_hand_moves_include(board, st.locked_chips@, team, hand, hand.len() as int, j, a);
}

} // verus!
