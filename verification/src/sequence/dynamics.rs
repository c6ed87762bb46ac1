//! Opponent models for Sequence planning, and guessing the hidden cards of
//! a position from what one player sees.
use crate::sequence::agent::{can_list_moves, moves_of, random_move};
use crate::sequence::board::{create_double_deck, standard_deck, Card};
use crate::random::shuffle;
use crate::sequence::game::{after_draw, draw_cards, hands_view, SequenceAction, SequenceState};
use crate::sequence::world::SequenceObservation;
use rand::rngs::ThreadRng;
use vstd::prelude::*;

verus! {

/// An opponent that plays one of its legal moves at random.
#[derive(Debug, Clone, Copy, Default)]
pub struct RandomOpponentPolicy;

impl RandomOpponentPolicy {
    /// One of the legal moves of the player to move, at random.
    pub fn select_action(&self, state: &SequenceState) -> (a: SequenceAction)
        requires
            can_list_moves(*state),
            moves_of(*state).len() > 0,
        ensures
            moves_of(*state).contains(a),
    {
        random_move(state)
    }
}

/// The first position at or after `k` where `pile` holds `c` (its length if none).
pub open spec fn first_pos(pile: Seq<Card>, c: Card, k: int) -> int
    decreases pile.len() - k,
{
    if k < 0 || k >= pile.len() {
        pile.len() as int
    } else if pile[k] == c {
        k
    } else {
        first_pos(pile, c, k + 1)
    }
}

/// `pile` without its first copy of `c`, the last card moved into the gap
/// (`Vec::swap_remove`); unchanged when `c` is absent.
pub open spec fn swap_out(pile: Seq<Card>, c: Card) -> Seq<Card> {
    let i = first_pos(pile, c, 0);
    if i < pile.len() {
        pile.update(i, pile.last()).drop_last()
    } else {
        pile
    }
}

/// `pile` after swapping out each of the first `k` of `cards` in turn.
pub open spec fn swap_out_all(pile: Seq<Card>, cards: Seq<Card>, k: int) -> Seq<Card>
    decreases k,
{
    if k <= 0 {
        pile
    } else {
        swap_out(swap_out_all(pile, cards, k - 1), cards[k - 1])
    }
}

/// The cards the observer cannot see: the double deck without its own hand
/// and without the discards.
pub open spec fn unseen_of(obs: SequenceObservation) -> Seq<Card> {
    let without_hand = swap_out_all(standard_deck() + standard_deck(), obs.my_hand@, obs.my_hand@.len() as int);
    swap_out_all(without_hand, obs.discards@, obs.discards@.len() as int)
}

/// The hands of the first `k` seats dealt from the end of `pool`: the
/// observer keeps its own hand, every other seat draws as many cards as it
/// holds (none past the count list, fewer when the pool runs out); and what
/// is left of the pool.
pub open spec fn guess_hands(obs: SequenceObservation, pool: Seq<Card>, k: int) -> (Seq<Seq<Card>>, Seq<Card>)
    decreases k,
{
    if k <= 0 {
        (Seq::empty(), pool)
    } else {
        let (hands, rest) = guess_hands(obs, pool, k - 1);
        if k - 1 == obs.player {
            (hands.push(obs.my_hand@), rest)
        } else {
            let n: nat = if k - 1 < obs.other_hand_counts@.len() {
                obs.other_hand_counts@[k - 1] as nat
            } else {
                0
            };
            (hands.push(draw_cards(rest, n)), after_draw(rest, n))
        }
    }
}

/// `st` is the position `obs` sees, with hands and draw pile dealt from `pool`.
pub open spec fn dealt_from(st: SequenceState, obs: SequenceObservation, pool: Seq<Card>) -> bool {
    let (hands, deck) = guess_hands(obs, pool, obs.config.num_players as int);
    &&& st.config == obs.config
    &&& st.board == obs.board
    &&& st.locked_chips == obs.locked_chips
    &&& st.sequences@ == obs.sequences@
    &&& st.team_sequence_counts == obs.team_sequence_counts
    &&& st.current_player == obs.current_player
    &&& hands_view(st.hands@) == hands
    &&& st.deck@ == deck
    &&& st.discards@ == obs.discards@
    &&& st.total_moves == obs.total_moves
    &&& st.terminated == obs.terminated
    &&& st.winner_team == obs.winner_team
}

/// Swaps out the first copy of `c` from `pile`, if any.
fn remove_first(pile: &mut Vec<Card>, c: Card)
    ensures
        final(pile)@ == swap_out(old(pile)@, c),
{
    let mut i: usize = 0;
    while i < pile.len()
        invariant
            i <= pile@.len(),
            pile@ == old(pile)@,
            first_pos(pile@, c, 0) == first_pos(pile@, c, i as int),
        decreases pile@.len() - i,
    {
        if pile[i] == c {
            pile.swap_remove(i);
            return;
        }
        i += 1;
    }
}

/// Swaps out each of `cards` in turn.
fn remove_each(pile: &mut Vec<Card>, cards: &Vec<Card>)
    ensures
        final(pile)@ == swap_out_all(old(pile)@, cards@, cards@.len() as int),
{
    let mut k: usize = 0;
    while k < cards.len()
        invariant
            k <= cards@.len(),
            pile@ == swap_out_all(old(pile)@, cards@, k as int),
        decreases cards@.len() - k,
    {
        remove_first(pile, cards[k]);
        k += 1;
    }
}

/// The cards `obs`'s player cannot see, in the order the double deck leaves
/// them after swapping out its own hand and then the discards.
pub fn unseen_cards(obs: &SequenceObservation) -> (v: Vec<Card>)
    ensures
        v@ == unseen_of(*obs),
{
    let mut unseen = create_double_deck();
    remove_each(&mut unseen, &obs.my_hand);
    remove_each(&mut unseen, &obs.discards);
    unseen
}

/// Copies a card list.
fn copy_cards(v: &Vec<Card>) -> (c: Vec<Card>)
    ensures
        c@ == v@,
{
    let mut c: Vec<Card> = Vec::new();
    let mut i: usize = 0;
    while i < v.len()
        invariant
            i <= v@.len(),
            c@ == v@.take(i as int),
        decreases v@.len() - i,
    {
        c.push(v[i]);
        i += 1;
    }
    c
}

/// The position `obs` sees, with the other players' hands and the draw pile
/// dealt from the end of `pool` (see `guess_hands`).
pub fn deal_guess(obs: &SequenceObservation, pool: Vec<Card>) -> (st: SequenceState)
    ensures
        dealt_from(st, *obs, pool@),
{
    let ghost p0 = pool@;
    let mut unseen = pool;
    let mut hands: Vec<Vec<Card>> = Vec::new();
    let mut p: usize = 0;
    while p < obs.config.num_players
        invariant
            p <= obs.config.num_players,
            hands_view(hands@) == guess_hands(*obs, p0, p as int).0,
            unseen@ == guess_hands(*obs, p0, p as int).1,
        decreases obs.config.num_players - p,
    {
        let ghost before = unseen@;
        if p == obs.player {
            hands.push(copy_cards(&obs.my_hand));
        } else {
            let count: usize = if p < obs.other_hand_counts.len() {
                obs.other_hand_counts[p]
            } else {
                0
            };
            let mut hand: Vec<Card> = Vec::new();
            let mut j: usize = 0;
            while j < count
                invariant
                    j <= count,
                    hand@ == draw_cards(before, j as nat),
                    unseen@ == after_draw(before, j as nat),
                decreases count - j,
            {
                match unseen.pop() {
                    Some(c) => hand.push(c),
                    None => {},
                }
                assert(hand@ =~= draw_cards(before, (j + 1) as nat));
                assert(unseen@ =~= after_draw(before, (j + 1) as nat));
                j += 1;
            }
            hands.push(hand);
        }
        assert(hands_view(hands@) =~= guess_hands(*obs, p0, (p + 1) as int).0);
        p += 1;
    }
    let sequences = obs.sequences.clone();
    assert(sequences@ =~= obs.sequences@);
    SequenceState {
        config: obs.config,
        board: obs.board,
        locked_chips: obs.locked_chips,
        sequences,
        team_sequence_counts: obs.team_sequence_counts,
        current_player: obs.current_player,
        hands,
        deck: unseen,
        discards: copy_cards(&obs.discards),
        total_moves: obs.total_moves,
        terminated: obs.terminated,
        winner_team: obs.winner_team,
    }
}

/// A full position consistent with what `obs`'s player sees: the cards it
/// cannot see are shuffled and dealt to the other players (as many as each
/// holds) and to the draw pile. Whatever the shuffle gives, the pool dealt
/// from holds exactly the unseen cards.
pub fn determinize_state(obs: &SequenceObservation, rng: &mut ThreadRng) -> (st: SequenceState)
    ensures
        exists|pool: Seq<Card>|
            pool.to_multiset() == unseen_of(*obs).to_multiset() && pool.len() == unseen_of(*obs).len() && dealt_from(
                st,
                *obs,
                pool,
            ),
{
    let mut unseen = unseen_cards(obs);
    shuffle(&mut unseen, rng);
    let ghost pool = unseen@;
    let st = deal_guess(obs, unseen);
    assert(pool.to_multiset() == unseen_of(*obs).to_multiset() && pool.len() == unseen_of(*obs).len() && dealt_from(
        st,
        *obs,
        pool,
    ));
    st
}

} // verus!
