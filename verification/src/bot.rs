//! What a player sees of a hand, and players that a program plays: how
//! often a hand wins over all ways in which the hidden cards can lie, which
//! cards are best given back, and how far a bot goes with a bet.

use crate::bitcard::{card_at, deck_order, CardSet, CardTuple, CARD_TUPLE_CAPACITY, DECK_SIZE};
use crate::card::{standard_deck, Card, Kind, NUM_RANKS, NUM_SUITS};
use crate::comb::{
    combinations, lemma_pick_nothing, lemma_pick_some, lemma_span_grows, lemma_sum_over_some,
    lemma_sum_over_walk, pick, positions,
    selections, span, successor, sum_over, valid_selection, walk, Combinations,
};
use crate::game::{BetResp, Chips, PlayerRole, ReplaceResp};
use crate::pots::SHOWDOWN_HAND_SIZE;
use crate::special_card::{
    all_extensions, holds_hand, is_extension, no_hand_twice, SpecialCard, SpecialRules,
};
use crate::strength::{
    best_hand, best_hand_use_from_hand, cards_in_hand, is_best_hand, is_best_using, key_order,
    lemma_best_hand_unique, lemma_key_order_total, HandStrength, StrengthKey,
};
use crate::viewstate::{pot_upto, CardViewState, PokerViewState};
use vstd::prelude::*;

verus! {

/// The cards among `cards` that the viewer can see, in the same order.
pub open spec fn visible_of(cards: Seq<CardViewState>) -> Seq<Card>
    decreases cards.len(),
{
    if cards.len() == 0 {
        Seq::empty()
    } else {
        let rest = visible_of(cards.drop_last());
        match cards.last() {
            CardViewState::Visible(cs) => rest.push(cs.card),
            CardViewState::Invisible => rest,
        }
    }
}

/// Every card among `cards` that the viewer can see is a card of the deck.
pub open spec fn all_from_deck(cards: Seq<CardViewState>) -> bool {
    forall|i: int|
        0 <= i < cards.len() ==> ((#[trigger] cards[i]) matches CardViewState::Visible(cs)
            ==> cs.card.in_deck())
}

proof fn lemma_visible_of(cards: Seq<CardViewState>)
    requires
        all_from_deck(cards),
    ensures
        visible_of(cards).len() <= cards.len(),
        forall|i: int| 0 <= i < visible_of(cards).len() ==> (#[trigger] visible_of(cards)[i]).in_deck(),
    decreases cards.len(),
{
    if cards.len() > 0 {
        let head = cards.drop_last();
        assert forall|i: int| 0 <= i < head.len() implies ((#[trigger] head[i]) matches CardViewState::Visible(
            cs,
        ) ==> cs.card.in_deck()) by {
            assert(head[i] == cards[i]);
        }
        lemma_visible_of(head);
        assert(cards.last() == cards[cards.len() - 1]);
    }
}

/// The cards of the viewer.
pub fn my_hand(state: &PokerViewState) -> (hand: Vec<CardViewState>)
    requires
        state.role < state.players@.len(),
    ensures
        hand@ == state.players@[state.role as int].hand@,
{
    let source = &state.players[state.role].hand;
    let mut hand: Vec<CardViewState> = Vec::new();
    let mut i: usize = 0;
    while i < source.len()
        invariant
            i <= source@.len(),
            hand@ == source@.take(i as int),
        decreases source@.len() - i,
    {
        hand.push(source[i]);
        assert(source@.take(i + 1) =~= source@.take(i as int).push(source@[i as int]));
        i = i + 1;
    }
    assert(source@.take(source@.len() as int) =~= source@);
    hand
}

/// The cards among `cards` that the viewer can see.
pub fn visible_cards(cards: &Vec<CardViewState>) -> (visible: CardTuple)
    requires
        all_from_deck(cards@),
        visible_of(cards@).len() <= CARD_TUPLE_CAPACITY,
    ensures
        visible@ == visible_of(cards@),
{
    let mut visible = CardTuple::new();
    let mut i: usize = 0;
    assert(cards@.take(0) =~= Seq::<CardViewState>::empty());
    while i < cards.len()
        invariant
            i <= cards@.len(),
            all_from_deck(cards@),
            visible_of(cards@).len() <= CARD_TUPLE_CAPACITY,
            visible@ == visible_of(cards@.take(i as int)),
        decreases cards@.len() - i,
    {
        proof {
            assert(cards@.take(i + 1).drop_last() =~= cards@.take(i as int));
            lemma_visible_grows(cards@, i + 1);
        }
        match cards[i] {
            CardViewState::Visible(cs) => {
                visible.push(cs.card);
            },
            CardViewState::Invisible => {},
        }
        i = i + 1;
    }
    assert(cards@.take(cards@.len() as int) =~= cards@);
    visible
}

proof fn lemma_visible_grows(cards: Seq<CardViewState>, k: int)
    requires
        0 <= k <= cards.len(),
    ensures
        visible_of(cards.take(k)).len() <= visible_of(cards).len(),
    decreases cards.len() - k,
{
    if k < cards.len() {
        lemma_visible_grows(cards, k + 1);
        assert(cards.take(k + 1).drop_last() =~= cards.take(k));
    } else {
        assert(cards.take(k) =~= cards);
    }
}

/// The cards that the viewer sees in the hands of the first `k` players.
pub open spec fn seen_in_hands(state: PokerViewState, k: int) -> Set<Card>
    decreases k,
{
    if k <= 0 {
        Set::empty()
    } else {
        seen_in_hands(state, k - 1).union(visible_of(state.players@[k - 1].hand@).to_set())
    }
}

/// The cards that the viewer sees: in the community or in a hand.
pub open spec fn seen_cards(state: PokerViewState) -> Set<Card> {
    visible_of(state.community_cards@).to_set().union(
        seen_in_hands(state, state.players@.len() as int),
    )
}

/// All that the viewer sees are cards of the deck.
pub open spec fn sees_deck_cards(state: PokerViewState) -> bool {
    &&& all_from_deck(state.community_cards@)
    &&& forall|i: int| 0 <= i < state.players@.len() ==> all_from_deck((#[trigger] state.players@[i]).hand@)
}

/// The cards of the deck, as a set.
pub open spec fn whole_deck() -> Set<Card> {
    Set::new(|c: Card| c.in_deck())
}

fn remove_visible(set: &mut CardSet, cards: &Vec<CardViewState>)
    requires
        all_from_deck(cards@),
    ensures
        final(set)@ == old(set)@.difference(visible_of(cards@).to_set()),
{
    let ghost start = set@;
    let mut i: usize = 0;
    proof {
        assert(cards@.take(0) =~= Seq::<CardViewState>::empty());
        assert(set@ =~= start.difference(visible_of(cards@.take(0)).to_set()));
    }
    while i < cards.len()
        invariant
            i <= cards@.len(),
            all_from_deck(cards@),
            set@ == start.difference(visible_of(cards@.take(i as int)).to_set()),
        decreases cards@.len() - i,
    {
        let ghost seen = visible_of(cards@.take(i as int));
        proof {
            assert(cards@.take(i + 1).drop_last() =~= cards@.take(i as int));
        }
        match cards[i] {
            CardViewState::Visible(cs) => {
                set.remove(cs.card);
                proof {
                    let now = seen.push(cs.card);
                    assert(now.to_set() =~= seen.to_set().insert(cs.card)) by {
                        assert forall|c: Card| now.to_set().contains(c) <==> seen.to_set().insert(
                            cs.card,
                        ).contains(c) by {
                            if now.contains(c) {
                                let k = choose|k: int| 0 <= k < now.len() && now[k] == c;
                                if k < seen.len() {
                                    assert(seen[k] == c);
                                }
                            }
                            if seen.contains(c) {
                                let k = choose|k: int| 0 <= k < seen.len() && seen[k] == c;
                                assert(now[k] == c);
                            }
                            assert(now[seen.len() as int] == cs.card);
                        }
                    }
                    assert(set@ =~= start.difference(now.to_set()));
                }
            },
            CardViewState::Invisible => {},
        }
        i = i + 1;
    }
    assert(cards@.take(cards@.len() as int) =~= cards@);
}

/// The whole deck, as a set.
fn full_deck() -> (deck: CardSet)
    ensures
        deck@ == whole_deck(),
{
    let deck = standard_deck();
    proof {
        assert forall|i: int| 0 <= i < deck.raw@.len() implies (#[trigger] deck.raw@[i]).in_deck() by {
            assert(deck.raw@[i] == card_at(i));
        }
    }
    let ghost all = deck.raw@;
    let set = CardSet::from_vec(deck.raw);
    proof {
        assert(set@ =~= whole_deck()) by {
            assert forall|c: Card| set@.contains(c) <==> c.in_deck() by {
                if c.in_deck() {
                    assert(all[c.index()] == card_at(c.index()));
                    assert(card_at(c.index()) == c);
                    assert(all.contains(c));
                }
                if all.contains(c) {
                    let k = choose|k: int| 0 <= k < all.len() && all[k] == c;
                    assert(all[k] == card_at(k));
                }
            }
        }
    }
    set
}

/// The cards that the viewer has not seen: the deck less the cards that
/// lie open in the community or in a hand.
pub fn cards_left(state: &PokerViewState) -> (left: CardSet)
    requires
        sees_deck_cards(*state),
    ensures
        left@ == whole_deck().difference(seen_cards(*state)),
{
    let mut left = full_deck();
    remove_visible(&mut left, &state.community_cards);
    let ghost community = visible_of(state.community_cards@).to_set();
    let mut i: usize = 0;
    proof {
        assert(left@ =~= whole_deck().difference(community.union(seen_in_hands(*state, 0))));
    }
    while i < state.players.len()
        invariant
            i <= state.players@.len(),
            sees_deck_cards(*state),
            community == visible_of(state.community_cards@).to_set(),
            left@ == whole_deck().difference(community.union(seen_in_hands(*state, i as int))),
        decreases state.players@.len() - i,
    {
        remove_visible(&mut left, &state.players[i].hand);
        proof {
            assert(left@ =~= whole_deck().difference(
                community.union(seen_in_hands(*state, i + 1)),
            ));
        }
        i = i + 1;
    }
    left
}

/// The viewer sits at the table and has not bet more than they have.
pub open spec fn can_bet(state: PokerViewState) -> bool {
    &&& state.role < state.players@.len()
    &&& 0 <= state.players@[state.role as int].total_bet <= state.players@[state.role as int].chips
}

/// The smaller of two amounts.
pub open spec fn least(a: Chips, b: Chips) -> Chips {
    if a < b {
        a
    } else {
        b
    }
}

/// The chips that the viewer has not bet yet.
pub open spec fn bettable(state: PokerViewState) -> Chips {
    (state.players@[state.role as int].chips - state.players@[state.role as int].total_bet) as Chips
}

/// Checks or calls, whatever the bet: as far as the chips go.
pub fn check_or_call_any(state: &PokerViewState, call_amount: Chips) -> (r: BetResp)
    requires
        can_bet(*state),
    ensures
        r == BetResp::Bet(least(call_amount, bettable(*state))),
{
    let left = state.bettable_chips(state.role);
    BetResp::Bet(
        if call_amount < left {
            call_amount
        } else {
            left
        },
    )
}

/// How many of the first `k` of `cards` are threes that the viewer can
/// see.
pub open spec fn count_threes(cards: Seq<CardViewState>, k: int) -> nat
    decreases k,
{
    if k <= 0 {
        0
    } else {
        count_threes(cards, k - 1) + if cards[k - 1] matches CardViewState::Visible(cs)
            && cs.card.rank == 2 {
            1nat
        } else {
            0nat
        }
    }
}

/// Whether the viewer holds two threes or more.
pub fn pocket_threes(state: &PokerViewState) -> (r: bool)
    requires
        state.role < state.players@.len(),
    ensures
        r == holds_threes(*state),
{
    let hand = &state.players[state.role].hand;
    let mut count: usize = 0;
    let mut i: usize = 0;
    while i < hand.len()
        invariant
            i <= hand@.len(),
            count <= i,
            count == count_threes(hand@, i as int),
        decreases hand@.len() - i,
    {
        match hand[i] {
            CardViewState::Visible(cs) => {
                if cs.card.rank == 2 {
                    count = count + 1;
                }
            },
            CardViewState::Invisible => {},
        }
        i = i + 1;
    }
    count >= 2
}

/// The hands that `cards` may be, each once: the cards that can be seen,
/// and for each card that cannot any card of the deck. No cards are one
/// hand of no cards.
pub fn hands(cards: &Vec<CardViewState>) -> (r: Vec<CardTuple>)
    requires
        all_from_deck(cards@),
        cards@.len() <= CARD_TUPLE_CAPACITY,
    ensures
        r@.len() > 0,
        ({
            let visible = visible_of(cards@);
            let hidden = (cards@.len() - visible.len()) as nat;
            let deck = Seq::new(DECK_SIZE as nat, |i: int| card_at(i));
            &&& forall|i: int|
                0 <= i < r@.len() ==> is_extension(visible, deck, hidden, (#[trigger] r@[i])@)
            &&& forall|hand: Seq<Card>|
                is_extension(visible, deck, hidden, hand) ==> #[trigger] holds_hand(r@, hand)
        }),
        no_hand_twice(r@),
{
    proof {
        lemma_visible_of(cards@);
    }
    let visible = visible_cards(cards);
    let num_hidden = cards.len() - visible.len();
    let deck = standard_deck();
    proof {
        assert(deck.raw@ =~= Seq::new(DECK_SIZE as nat, |i: int| card_at(i)));
        assert forall|i: int| 0 <= i < deck.raw@.len() implies (#[trigger] deck.raw@[i]).valid() by {
            assert(deck.raw@[i] == card_at(i));
        }
        assert forall|a: int, b: int| 0 <= a < b < deck.raw@.len() implies deck.raw@[a]
            != deck.raw@[b] by {
            assert(deck.raw@[a] == card_at(a) && deck.raw@[b] == card_at(b));
            assert(card_at(a).index() == a && card_at(b).index() == b);
        }
    }
    all_extensions(visible, deck.raw, num_hidden)
}

/// How far a bot goes with the pot.
#[derive(Clone, Copy, Debug, PartialEq, Eq, Structural)]
pub enum RiskFactor {
    /// Never puts chips in.
    CheckFold,
    /// Goes up to this part of the pot.
    PotRatio { numer: u64, denom: u64 },
    /// Calls whatever the bet, and raises by a quarter of the pot.
    CallAny,
}

/// The part `numer / denom` of `pot`, rounded down, and no more than fits
/// in `Chips`; nothing where `denom` is nothing.
pub open spec fn part_of(pot: Chips, numer: u64, denom: u64) -> Chips {
    if denom == 0 || pot <= 0 {
        0
    } else if pot * numer / (denom as int) > Chips::MAX {
        Chips::MAX
    } else {
        (pot * numer / (denom as int)) as Chips
    }
}

fn scaled(pot: Chips, numer: u64, denom: u64) -> (r: Chips)
    ensures
        r == part_of(pot, numer, denom),
        r >= 0,
{
    if denom == 0 || pot <= 0 {
        return 0;
    }
    assert(0 <= pot * numer <= 0x7fff_ffff * 0xffff_ffff_ffff_ffff) by (nonlinear_arith)
        requires
            0 < pot <= 0x7fff_ffff,
            0 <= numer <= 0xffff_ffff_ffff_ffff,
    ;
    let product: u128 = (pot as u128) * (numer as u128);
    let part: u128 = product / (denom as u128);
    if part > 0x7fff_ffff {
        Chips::MAX
    } else {
        part as Chips
    }
}

/// What the viewer has bet in this round.
pub open spec fn own_bet(state: PokerViewState) -> Chips {
    if state.bet_this_round@.contains_key(state.role) {
        state.bet_this_round@[state.role]
    } else {
        0
    }
}

/// The pot can be counted in `Chips`.
pub open spec fn pot_fits(state: PokerViewState) -> bool {
    forall|k: int|
        0 <= k <= state.players@.len() ==> Chips::MIN <= #[trigger] pot_upto(state, k) <= Chips::MAX
}

/// What a bot that goes as far as `max_bet` answers: it folds where
/// `fold_above` says so and more than `max_bet` is asked of it; it stays
/// in for the bet to match where `max_bet` is below the least raise; and
/// else it raises by `max_bet`. No bet is more than the bot has left.
pub open spec fn answer_up_to(
    state: PokerViewState,
    call_amount: Chips,
    min_bet: Chips,
    max_bet: Chips,
    fold_above: bool,
) -> BetResp {
    if fold_above && call_amount - own_bet(state) > max_bet {
        BetResp::Fold
    } else if max_bet < min_bet || max_bet + call_amount > Chips::MAX {
        BetResp::Bet(least(call_amount, bettable(state)))
    } else {
        BetResp::Bet(least((max_bet + call_amount) as Chips, bettable(state)))
    }
}

/// What a bot with the risk factor `risk_factor` answers when it is asked
/// to bet.
pub open spec fn risk_answer(
    state: PokerViewState,
    call_amount: Chips,
    min_bet: Chips,
    risk_factor: RiskFactor,
) -> BetResp {
    let pot = pot_upto(state, state.players@.len() as int) as Chips;
    match risk_factor {
        RiskFactor::CheckFold => if call_amount - own_bet(state) > 0 {
            BetResp::Fold
        } else {
            BetResp::Bet(least(call_amount, bettable(state)))
        },
        RiskFactor::PotRatio { numer, denom } => answer_up_to(
            state,
            call_amount,
            min_bet,
            part_of(pot, numer, denom),
            true,
        ),
        RiskFactor::CallAny => answer_up_to(state, call_amount, min_bet, part_of(pot, 1, 4), false),
    }
}

/// Answers a request to bet as the risk factor says.
pub fn bet_risk_factor(
    state: &PokerViewState,
    call_amount: Chips,
    min_bet: Chips,
    risk_factor: RiskFactor,
) -> (r: BetResp)
    requires
        can_bet(*state),
        pot_fits(*state),
    ensures
        r == risk_answer(*state, call_amount, min_bet, risk_factor),
{
    broadcast use vstd::std_specs::hash::group_hash_axioms;

    let bet_this_round: Chips = match state.bet_this_round.get(&state.role) {
        Some(b) => *b,
        None => 0,
    };
    let left = state.bettable_chips(state.role);
    let call: Chips = if call_amount < left {
        call_amount
    } else {
        left
    };
    let asked: i64 = (call_amount as i64) - (bet_this_round as i64);
    let (max_bet, fold_above): (Chips, bool) = match risk_factor {
        RiskFactor::CheckFold => {
            return if asked > 0 {
                BetResp::Fold
            } else {
                BetResp::Bet(call)
            };
        },
        RiskFactor::PotRatio { numer, denom } => (scaled(state.pot(), numer, denom), true),
        RiskFactor::CallAny => (scaled(state.pot(), 1, 4), false),
    };
    if fold_above && asked > max_bet as i64 {
        BetResp::Fold
    } else if max_bet < min_bet || (max_bet as i64) + (call_amount as i64) > 0x7fff_ffff {
        BetResp::Bet(call)
    } else {
        let raise = max_bet + call_amount;
        BetResp::Bet(
            if raise < left {
                raise
            } else {
                left
            },
        )
    }
}


/// How often a hand wins: `won` of `total` ways in which the hidden cards
/// can lie.
#[derive(Clone, Copy, Debug, PartialEq, Eq, Structural)]
pub struct WinRatio {
    pub won: u64,
    pub total: u64,
}

/// `a + b`, as far as the number can hold it.
fn add_up(a: u64, b: u64) -> (r: u64)
    ensures
        r == if a + b > u64::MAX {
            u64::MAX
        } else {
            (a + b) as u64
        },
{
    if b > u64::MAX - a {
        u64::MAX
    } else {
        a + b
    }
}

/// The next selection of cards, with what every selection holds: as many
/// cards as were asked for, each a card of the source.
fn next_cards(combos: &mut Combinations<Card>) -> (r: Option<Vec<Card>>)
    requires
        old(combos).wf(),
        forall|i: int|
            0 <= i < old(combos).source().len() ==> (#[trigger] old(combos).source()[i]).in_deck(),
    ensures
        final(combos).wf(),
        final(combos).source() == old(combos).source(),
        final(combos).size() == old(combos).size(),
        final(combos).with_replacement() == old(combos).with_replacement(),
        r is Some ==> final(combos).remaining() < old(combos).remaining(),
        r is Some <==> old(combos).pending() is Some,
        r is None ==> final(combos).pending() is None,
        r matches Some(v) ==> {
            &&& v@.len() == old(combos).size()
            &&& forall|i: int|
                0 <= i < v@.len() ==> old(combos).source().contains(#[trigger] v@[i])
            &&& forall|i: int| 0 <= i < v@.len() ==> (#[trigger] v@[i]).in_deck()
            &&& !old(combos).with_replacement() ==> old(combos).size() <= old(combos).source().len()
            &&& valid_selection(
                old(combos).source().len() as int,
                old(combos).with_replacement(),
                old(combos).pending()->Some_0,
            )
            &&& v@ == pick(old(combos).source(), old(combos).pending()->Some_0)
            &&& final(combos).pending() == successor(
                old(combos).source().len() as int,
                old(combos).with_replacement(),
                old(combos).pending()->Some_0,
            )
        },
{
    proof {
        combos.lemma_pending();
    }
    let ghost pending = combos.pending();
    let ghost source = combos.source();
    let r = combos.next();
    proof {
        if r is Some {
            let sel = pending->Some_0;
            let v = r->Some_0;
            crate::special_card::lemma_picked_cards(source, sel, v@);
            assert forall|i: int| 0 <= i < v@.len() implies source.contains(#[trigger] v@[i])
                && v@[i].in_deck() by {
                assert(0 <= sel[i] < source.len());
                assert(v@[i] == source[sel[i]]);
            }
            if !combos.with_replacement() && sel.len() > 0 {
                crate::comb::lemma_selection_fits(source.len() as int, sel);
            }
        }
    }
    r
}

/// The cards of `set` in the order of the deck.
fn set_cards(set: &CardSet) -> (v: Vec<Card>)
    ensures
        v@ == deck_order(set@),
        forall|i: int| 0 <= i < v@.len() ==> (#[trigger] v@[i]).in_deck(),
        v@.len() <= DECK_SIZE,
{
    proof {
        use_type_invariant(set);
        set.lemma_ordered();
    }
    set.to_vec()
}

/// `base` with the first `k` cards of `more` added, and `left` without
/// them.
fn take_cards(base: CardTuple, more: &Vec<Card>, k: usize, left: CardSet) -> (r: (CardTuple, CardSet))
    requires
        k <= more@.len(),
        base@.len() + k <= CARD_TUPLE_CAPACITY,
        forall|i: int| 0 <= i < more@.len() ==> (#[trigger] more@[i]).in_deck(),
    ensures
        r.0@ == base@ + more@.take(k as int),
        r.1@ == left@.difference(more@.take(k as int).to_set()),
{
    let mut hand = base;
    let mut rest = left;
    let mut i: usize = 0;
    proof {
        assert(hand@ =~= base@ + more@.take(0));
        assert(rest@ =~= left@.difference(more@.take(0).to_set()));
    }
    while i < k
        invariant
            i <= k,
            k <= more@.len(),
            base@.len() + k <= CARD_TUPLE_CAPACITY,
            forall|i: int| 0 <= i < more@.len() ==> (#[trigger] more@[i]).in_deck(),
            hand@ == base@ + more@.take(i as int),
            rest@ == left@.difference(more@.take(i as int).to_set()),
        decreases k - i,
    {
        let card = more[i];
        hand.push(card);
        rest.remove(card);
        proof {
            let before = more@.take(i as int);
            assert(more@.take(i + 1) =~= before.push(card));
            before.lemma_push_to_set_commute(card);
            assert(hand@ =~= base@ + more@.take(i + 1));
            assert(rest@ =~= left@.difference(more@.take(i + 1).to_set()));
        }
        i = i + 1;
    }
    (hand, rest)
}

/// How many of `cards` the viewer cannot see.
pub open spec fn hidden_of(cards: Seq<CardViewState>) -> nat {
    (cards.len() - visible_of(cards).len()) as nat
}

/// What the viewer knows of the cards of a player: those that lie open,
/// and how many do not.
pub struct Shown {
    pub open: Seq<Card>,
    pub hidden: nat,
}

/// What the viewer knows of the cards of the other players among the
/// first `k` who are still in, by role.
pub open spec fn rivals(state: PokerViewState, k: int) -> Seq<Shown>
    decreases k,
{
    if k <= 0 {
        Seq::empty()
    } else {
        let before = rivals(state, k - 1);
        let player = state.players@[k - 1];
        if k - 1 != state.role && !player.folded {
            before.push(Shown { open: visible_of(player.hand@), hidden: hidden_of(player.hand@) })
        } else {
            before
        }
    }
}

/// The cards that lie open before the first `k` of `rivals`.
pub open spec fn open_cards(rivals: Seq<Shown>, k: int) -> Set<Card>
    decreases k,
{
    if k <= 0 {
        Set::empty()
    } else {
        open_cards(rivals, k - 1).union(rivals[k - 1].open.to_set())
    }
}

/// The most cards that one of the first `k` of `rivals` hides.
pub open spec fn most_hidden(rivals: Seq<Shown>, k: int) -> nat
    decreases k,
{
    if k <= 0 {
        0
    } else {
        let most = most_hidden(rivals, k - 1);
        if rivals[k - 1].hidden > most {
            rivals[k - 1].hidden
        } else {
            most
        }
    }
}

/// What the outcomes of a hand are counted by: the rules of the table,
/// and what is known of the other players.
pub struct Count {
    pub use_from_hand: nat,
    pub rules: Seq<SpecialCard>,
    pub rivals: Seq<Shown>,
}

/// What the outcomes of the hand that `state` shows are counted by, with
/// the other players among the first `k`.
pub open spec fn count_upto(state: PokerViewState, k: int) -> Count {
    Count {
        use_from_hand: state.variant.use_from_hand as nat,
        rules: state.rules@,
        rivals: rivals(state, k),
    }
}

/// The best hand of the cards `mine` beats the best hand of the cards
/// `theirs`, both played with the cards `community`.
pub open spec fn hand_beats(c: Count, community: Seq<Card>, mine: Seq<Card>, theirs: Seq<Card>) -> bool {
    exists|a: StrengthKey, b: StrengthKey|
        #![trigger key_order(a, b)]
        {
            &&& is_best_using(c.use_from_hand, mine, community, SHOWDOWN_HAND_SIZE as nat, c.rules, a)
            &&& is_best_using(
                c.use_from_hand,
                theirs,
                community,
                SHOWDOWN_HAND_SIZE as nat,
                c.rules,
                b,
            )
            &&& key_order(a, b) > 0
        }
}

/// What one showdown counts for: every showdown counts, or only those
/// that are won.
pub open spec fn counted(won_only: bool, won: bool) -> int {
    if won || !won_only {
        1
    } else {
        0
    }
}

/// How many showdowns of the cards `mine` against the first `k` rivals
/// count, where each rival holds the cards that lie open and as many of
/// the first cards of `dealt` as the rival hides.
pub open spec fn showdowns(
    c: Count,
    won_only: bool,
    community: Seq<Card>,
    mine: Seq<Card>,
    dealt: Seq<Card>,
    k: int,
) -> int
    decreases k,
{
    if k <= 0 {
        0
    } else {
        let rival = c.rivals[k - 1];
        showdowns(c, won_only, community, mine, dealt, k - 1) + counted(
            won_only,
            hand_beats(c, community, mine, rival.open + dealt.take(rival.hidden as int)),
        )
    }
}

/// What each way to deal the rivals their hidden cards from `left` counts
/// for.
pub open spec fn rival_summand(
    c: Count,
    won_only: bool,
    community: Seq<Card>,
    mine: Seq<Card>,
    left: Set<Card>,
) -> spec_fn(Seq<int>) -> int {
    |sel: Seq<int>|
        showdowns(
            c,
            won_only,
            community,
            mine,
            pick(deck_order(left), sel),
            c.rivals.len() as int,
        )
}

/// The showdowns that count over all ways to deal the rivals their hidden
/// cards from `left`: each rival from the same cards.
pub open spec fn rival_deals(
    c: Count,
    won_only: bool,
    community: Seq<Card>,
    mine: Seq<Card>,
    left: Set<Card>,
) -> int {
    sum_over(
        selections(
            deck_order(left).len() as int,
            false,
            most_hidden(c.rivals, c.rivals.len() as int),
        ),
        rival_summand(c, won_only, community, mine, left),
    )
}

/// What each way to deal the viewer their hidden cards from `left` counts
/// for.
pub open spec fn my_summand(
    c: Count,
    won_only: bool,
    community: Seq<Card>,
    mine: Seq<Card>,
    left: Set<Card>,
) -> spec_fn(Seq<int>) -> int {
    |sel: Seq<int>|
        {
            let dealt = pick(deck_order(left), sel);
            rival_deals(c, won_only, community, mine + dealt, left.difference(dealt.to_set()))
        }
}

/// The showdowns that count over all ways to deal the viewer, who shows
/// the cards `mine`, `hidden` cards more from `left`, and then the rivals
/// theirs from the rest.
pub open spec fn my_deals(
    c: Count,
    won_only: bool,
    community: Seq<Card>,
    mine: Seq<Card>,
    hidden: nat,
    left: Set<Card>,
) -> int {
    sum_over(
        selections(deck_order(left).len() as int, false, hidden),
        my_summand(c, won_only, community, mine, left),
    )
}

/// What each way to deal the community its hidden cards from `left`
/// counts for.
pub open spec fn community_summand(
    c: Count,
    won_only: bool,
    community: Seq<Card>,
    mine: Seq<Card>,
    my_hidden: nat,
    left: Set<Card>,
) -> spec_fn(Seq<int>) -> int {
    |sel: Seq<int>|
        {
            let dealt = pick(deck_order(left), sel);
            my_deals(
                c,
                won_only,
                community + dealt,
                mine,
                my_hidden,
                left.difference(dealt.to_set()),
            )
        }
}

/// The showdowns that count over all ways to deal the community, of which
/// the cards `community` lie open, `hidden` cards more from `left`, then
/// the viewer, and then the rivals.
pub open spec fn community_deals(
    c: Count,
    won_only: bool,
    community: Seq<Card>,
    hidden: nat,
    mine: Seq<Card>,
    my_hidden: nat,
    left: Set<Card>,
) -> int {
    sum_over(
        selections(deck_order(left).len() as int, false, hidden),
        community_summand(c, won_only, community, mine, my_hidden, left),
    )
}

/// The cards of `left` that lie open nowhere: not in the community, not
/// in the hand of the viewer, and not in the hand of a player who is
/// still in.
pub open spec fn unseen(state: PokerViewState, left: Set<Card>) -> Set<Card> {
    let others = rivals(state, state.players@.len() as int);
    left.difference(visible_of(state.community_cards@).to_set()).difference(
        visible_of(state.players@[state.role as int].hand@).to_set(),
    ).difference(open_cards(others, others.len() as int))
}

/// How many showdowns of the viewer against another player who is still
/// in count, over all ways in which the cards that the viewer does not
/// see can be dealt from `left`: first to the community, then to the
/// viewer, then to the other players, who are each dealt from the same
/// cards.
pub open spec fn outcomes(state: PokerViewState, left: Set<Card>, won_only: bool) -> int {
    let mine = state.players@[state.role as int].hand@;
    community_deals(
        count_upto(state, state.players@.len() as int),
        won_only,
        visible_of(state.community_cards@),
        hidden_of(state.community_cards@),
        visible_of(mine),
        hidden_of(mine),
        unseen(state, left),
    )
}

/// A sum over the one way to pick nothing is what that way counts for.
proof fn lemma_one_way(n: int, f: spec_fn(Seq<int>) -> int)
    ensures
        sum_over(selections(n, false, 0), f) == f(Seq::<int>::empty()),
{
    lemma_pick_nothing(n, false);
    let only = selections(n, false, 0);
    assert(only.first() == Seq::<int>::empty());
    assert(only.drop_first() =~= Seq::<Seq<int>>::empty());
    assert(sum_over(only.drop_first(), f) == 0);
}

/// Where nothing is hidden the cards can lie in one way only, and what
/// counts are the showdowns of the cards as they lie.
pub proof fn lemma_nothing_hidden(state: PokerViewState, left: Set<Card>, won_only: bool)
    requires
        hidden_of(state.community_cards@) == 0,
        hidden_of(state.players@[state.role as int].hand@) == 0,
        most_hidden(
            rivals(state, state.players@.len() as int),
            rivals(state, state.players@.len() as int).len() as int,
        ) == 0,
    ensures
        outcomes(state, left, won_only) == showdowns(
            count_upto(state, state.players@.len() as int),
            won_only,
            visible_of(state.community_cards@),
            visible_of(state.players@[state.role as int].hand@),
            Seq::empty(),
            rivals(state, state.players@.len() as int).len() as int,
        ),
{
    let c = count_upto(state, state.players@.len() as int);
    let community = visible_of(state.community_cards@);
    let mine = visible_of(state.players@[state.role as int].hand@);
    let rest = unseen(state, left);
    let cards = deck_order(rest);
    let none = Seq::<int>::empty();
    let nothing = pick(cards, none);
    assert(nothing =~= Seq::<Card>::empty());
    assert(rest.difference(nothing.to_set()) =~= rest);
    assert(community + nothing =~= community);
    assert(mine + nothing =~= mine);
    lemma_one_way(cards.len() as int, community_summand(c, won_only, community, mine, 0, rest));
    lemma_one_way(cards.len() as int, my_summand(c, won_only, community, mine, rest));
    lemma_one_way(cards.len() as int, rival_summand(c, won_only, community, mine, rest));
}

proof fn lemma_all_showdowns(
    c: Count,
    community: Seq<Card>,
    mine: Seq<Card>,
    dealt: Seq<Card>,
    k: int,
)
    requires
        0 <= k,
    ensures
        showdowns(c, false, community, mine, dealt, k) == k,
    decreases k,
{
    if k > 0 {
        lemma_all_showdowns(c, community, mine, dealt, k - 1);
    }
}

/// There is something to count: where the viewer sees the community and
/// their own cards, a rival is still in, and the cards that lie open
/// nowhere are enough for what a rival hides, some showdown is counted.
pub proof fn lemma_some_showdown(state: PokerViewState, left: Set<Card>)
    requires
        hidden_of(state.community_cards@) == 0,
        hidden_of(state.players@[state.role as int].hand@) == 0,
        rivals(state, state.players@.len() as int).len() > 0,
        most_hidden(
            rivals(state, state.players@.len() as int),
            rivals(state, state.players@.len() as int).len() as int,
        ) <= deck_order(unseen(state, left)).len(),
    ensures
        outcomes(state, left, false) > 0,
{
    let c = count_upto(state, state.players@.len() as int);
    let community = visible_of(state.community_cards@);
    let mine = visible_of(state.players@[state.role as int].hand@);
    let rest = unseen(state, left);
    let cards = deck_order(rest);
    let none = Seq::<int>::empty();
    let nothing = pick(cards, none);
    let most = most_hidden(c.rivals, c.rivals.len() as int);
    assert(nothing =~= Seq::<Card>::empty());
    assert(rest.difference(nothing.to_set()) =~= rest);
    assert(community + nothing =~= community);
    assert(mine + nothing =~= mine);
    lemma_one_way(cards.len() as int, community_summand(c, false, community, mine, 0, rest));
    lemma_one_way(cards.len() as int, my_summand(c, false, community, mine, rest));
    let deals = selections(cards.len() as int, false, most);
    let each = rival_summand(c, false, community, mine, rest);
    lemma_pick_some(cards.len() as int, false, most);
    assert forall|i: int| 0 <= i < deals.len() implies each(#[trigger] deals[i]) > 0 by {
        lemma_all_showdowns(c, community, mine, pick(cards, deals[i]), c.rivals.len() as int);
    }
    lemma_sum_over_some(deals, each);
}

/// `count`, as far as the number can hold it.
pub open spec fn capped(count: int) -> int {
    if count > u64::MAX {
        u64::MAX as int
    } else {
        count
    }
}

/// The cards of players who show the same: the cards that the viewer
/// sees, how many the viewer does not see, and how many players they are.
struct Seen {
    visible: CardTuple,
    hidden: usize,
    roles: u64,
}

/// What `showdowns` counts, with the rivals who show the same taken
/// together.
spec fn group_showdowns(
    c: Count,
    won_only: bool,
    community: Seq<Card>,
    mine: Seq<Card>,
    groups: Seq<Seen>,
    dealt: Seq<Card>,
    k: int,
) -> int
    decreases k,
{
    if k <= 0 {
        0
    } else {
        let group = groups[k - 1];
        group_showdowns(c, won_only, community, mine, groups, dealt, k - 1) + if counted(
            won_only,
            hand_beats(c, community, mine, group.visible@ + dealt.take(group.hidden as int)),
        ) == 1 {
            group.roles as int
        } else {
            0
        }
    }
}

/// Taken together or one by one, the rivals count for the same.
spec fn groups_match(c: Count, groups: Seq<Seen>) -> bool {
    forall|won_only: bool, community: Seq<Card>, mine: Seq<Card>, dealt: Seq<Card>| #[trigger]
        group_showdowns(c, won_only, community, mine, groups, dealt, groups.len() as int)
            == showdowns(c, won_only, community, mine, dealt, c.rivals.len() as int)
}

/// Every group makes a hand with a community of `community_len` cards,
/// hides no more than `most` cards, and stands for no more than `bound`
/// players.
spec fn groups_fit(
    groups: Seq<Seen>,
    most: nat,
    use_from_hand: nat,
    community_len: nat,
    bound: int,
) -> bool {
    forall|g: int|
        0 <= g < groups.len() ==> {
            let seen = #[trigger] groups[g];
            &&& seen.hidden <= most
            &&& seen.roles <= bound
            &&& seen.visible@.len() + seen.hidden <= CARD_TUPLE_CAPACITY
            &&& 0 < cards_in_hand((seen.visible@.len() + seen.hidden) as nat, use_from_hand)
                + community_len <= CARD_TUPLE_CAPACITY
        }
}

proof fn lemma_rivals_prefix(a: Seq<Shown>, b: Seq<Shown>, k: int)
    requires
        0 <= k <= a.len(),
        k <= b.len(),
        forall|i: int| 0 <= i < k ==> a[i] == b[i],
    ensures
        open_cards(a, k) == open_cards(b, k),
        most_hidden(a, k) == most_hidden(b, k),
    decreases k,
{
    if k > 0 {
        lemma_rivals_prefix(a, b, k - 1);
    }
}

proof fn lemma_showdowns_prefix(
    a: Count,
    b: Count,
    won_only: bool,
    community: Seq<Card>,
    mine: Seq<Card>,
    dealt: Seq<Card>,
    k: int,
)
    requires
        a.use_from_hand == b.use_from_hand,
        a.rules == b.rules,
        0 <= k <= a.rivals.len(),
        k <= b.rivals.len(),
        forall|i: int| 0 <= i < k ==> a.rivals[i] == b.rivals[i],
    ensures
        showdowns(a, won_only, community, mine, dealt, k) == showdowns(
            b,
            won_only,
            community,
            mine,
            dealt,
            k,
        ),
    decreases k,
{
    if k > 0 {
        lemma_showdowns_prefix(a, b, won_only, community, mine, dealt, k - 1);
        let theirs = a.rivals[k - 1].open + dealt.take(a.rivals[k - 1].hidden as int);
        lemma_same_rules(a, b, community, mine, theirs);
    }
}

/// Who beats whom depends on the rules alone, not on who else plays.
proof fn lemma_same_rules(a: Count, b: Count, community: Seq<Card>, mine: Seq<Card>, theirs: Seq<Card>)
    requires
        a.use_from_hand == b.use_from_hand,
        a.rules == b.rules,
    ensures
        hand_beats(a, community, mine, theirs) == hand_beats(b, community, mine, theirs),
{
    if hand_beats(a, community, mine, theirs) {
        let (x, y) = choose|x: StrengthKey, y: StrengthKey|
            #![trigger key_order(x, y)]
            {
                &&& is_best_using(
                    a.use_from_hand,
                    mine,
                    community,
                    SHOWDOWN_HAND_SIZE as nat,
                    a.rules,
                    x,
                )
                &&& is_best_using(
                    a.use_from_hand,
                    theirs,
                    community,
                    SHOWDOWN_HAND_SIZE as nat,
                    a.rules,
                    y,
                )
                &&& key_order(x, y) > 0
            };
        assert(key_order(x, y) > 0);
    }
    if hand_beats(b, community, mine, theirs) {
        let (x, y) = choose|x: StrengthKey, y: StrengthKey|
            #![trigger key_order(x, y)]
            {
                &&& is_best_using(
                    b.use_from_hand,
                    mine,
                    community,
                    SHOWDOWN_HAND_SIZE as nat,
                    b.rules,
                    x,
                )
                &&& is_best_using(
                    b.use_from_hand,
                    theirs,
                    community,
                    SHOWDOWN_HAND_SIZE as nat,
                    b.rules,
                    y,
                )
                &&& key_order(x, y) > 0
            };
        assert(key_order(x, y) > 0);
    }
}

proof fn lemma_groups_prefix(
    a: Count,
    b: Count,
    won_only: bool,
    community: Seq<Card>,
    mine: Seq<Card>,
    old_groups: Seq<Seen>,
    new_groups: Seq<Seen>,
    dealt: Seq<Card>,
    k: int,
)
    requires
        a.use_from_hand == b.use_from_hand,
        a.rules == b.rules,
        0 <= k <= old_groups.len(),
        k <= new_groups.len(),
        forall|i: int| 0 <= i < k ==> old_groups[i] == new_groups[i],
    ensures
        group_showdowns(a, won_only, community, mine, old_groups, dealt, k) == group_showdowns(
            b,
            won_only,
            community,
            mine,
            new_groups,
            dealt,
            k,
        ),
    decreases k,
{
    if k > 0 {
        lemma_groups_prefix(a, b, won_only, community, mine, old_groups, new_groups, dealt, k - 1);
        let group = old_groups[k - 1];
        lemma_same_rules(a, b, community, mine, group.visible@ + dealt.take(group.hidden as int));
    }
}

/// One player more in the group at `g` counts for one showdown more
/// against what the group shows.
proof fn lemma_group_grows(
    a: Count,
    b: Count,
    won_only: bool,
    community: Seq<Card>,
    mine: Seq<Card>,
    old_groups: Seq<Seen>,
    new_groups: Seq<Seen>,
    dealt: Seq<Card>,
    g: int,
    k: int,
)
    requires
        a.use_from_hand == b.use_from_hand,
        a.rules == b.rules,
        old_groups.len() == new_groups.len(),
        0 <= g < old_groups.len(),
        0 <= k <= old_groups.len(),
        forall|i: int| 0 <= i < old_groups.len() && i != g ==> old_groups[i] == new_groups[i],
        new_groups[g].visible == old_groups[g].visible,
        new_groups[g].hidden == old_groups[g].hidden,
        new_groups[g].roles == old_groups[g].roles + 1,
    ensures
        group_showdowns(b, won_only, community, mine, new_groups, dealt, k) == group_showdowns(
            a,
            won_only,
            community,
            mine,
            old_groups,
            dealt,
            k,
        ) + if g < k {
            counted(
                won_only,
                hand_beats(
                    a,
                    community,
                    mine,
                    old_groups[g].visible@ + dealt.take(old_groups[g].hidden as int),
                ),
            )
        } else {
            0
        },
    decreases k,
{
    if k > 0 {
        lemma_group_grows(a, b, won_only, community, mine, old_groups, new_groups, dealt, g, k - 1);
        let group = old_groups[k - 1];
        lemma_same_rules(a, b, community, mine, group.visible@ + dealt.take(group.hidden as int));
    }
}

/// The cards among `cards` that can be seen, and how many cannot; the
/// cards that can be seen are taken out of `left`.
fn split_seen(cards: &Vec<CardViewState>, left: &mut CardSet) -> (r: (CardTuple, usize))
    requires
        all_from_deck(cards@),
        cards@.len() <= CARD_TUPLE_CAPACITY,
    ensures
        r.0@ == visible_of(cards@),
        r.1 == hidden_of(cards@),
        r.0@.len() + r.1 == cards@.len(),
        final(left)@ == old(left)@.difference(visible_of(cards@).to_set()),
{
    proof {
        lemma_visible_of(cards@);
    }
    let visible = visible_cards(cards);
    remove_visible(left, cards);
    let hidden = cards.len() - visible.len();
    (visible, hidden)
}

/// The odds can be counted: what the viewer sees are cards of the deck,
/// the viewer sits at the table, and the hand of each player who is still
/// in, the hidden cards counted in, makes something together with the
/// community.
pub open spec fn can_count(state: PokerViewState) -> bool {
    &&& sees_deck_cards(state)
    &&& state.role < state.players@.len()
    &&& state.community_cards@.len() <= CARD_TUPLE_CAPACITY
    &&& forall|i: int|
        0 <= i < state.players@.len() && (i == state.role || !(#[trigger] state.players@[i]).folded)
            ==> {
            &&& state.players@[i].hand@.len() <= CARD_TUPLE_CAPACITY
            &&& 0 < cards_in_hand(state.players@[i].hand@.len(), state.variant.use_from_hand as nat)
                + state.community_cards@.len() <= CARD_TUPLE_CAPACITY
        }
}

/// How often the hand of the viewer beats the hand of another player who
/// is still in, over all ways in which the cards that the viewer does not
/// see can be dealt from the whole deck.
pub fn win_ratio(state: &PokerViewState) -> (r: WinRatio)
    requires
        can_count(*state),
    ensures
        r.won == capped(outcomes(*state, whole_deck(), true)),
        r.total == capped(outcomes(*state, whole_deck(), false)),
        r.won <= r.total,
{
    win_ratio_cards_left(state, full_deck())
}

/// The players who are still in but for the viewer, those who show the
/// same taken together; with the most cards that one of them hides. The
/// cards that they show are taken out of `left`.
fn group_rivals(state: &PokerViewState, left: &mut CardSet) -> (r: (Vec<Seen>, usize))
    requires
        can_count(*state),
    ensures
        groups_match(count_upto(*state, state.players@.len() as int), r.0@),
        groups_fit(
            r.0@,
            r.1 as nat,
            state.variant.use_from_hand as nat,
            state.community_cards@.len(),
            state.players@.len() as int,
        ),
        r.1 == most_hidden(
            rivals(*state, state.players@.len() as int),
            rivals(*state, state.players@.len() as int).len() as int,
        ),
        r.1 <= CARD_TUPLE_CAPACITY,
        final(left)@ == old(left)@.difference(
            open_cards(
                rivals(*state, state.players@.len() as int),
                rivals(*state, state.players@.len() as int).len() as int,
            ),
        ),
{
    let ghost start = left@;
    let ghost use_n = state.variant.use_from_hand as nat;
    let ghost community_len = state.community_cards@.len();
    let mut groups: Vec<Seen> = Vec::new();
    let mut most: usize = 0;
    let mut role: usize = 0;
    proof {
        assert(left@ =~= start.difference(open_cards(rivals(*state, 0), 0)));
    }
    while role < state.players.len()
        invariant
            role <= state.players@.len(),
            can_count(*state),
            use_n == state.variant.use_from_hand,
            community_len == state.community_cards@.len(),
            most <= CARD_TUPLE_CAPACITY,
            rivals(*state, role as int).len() <= role,
            groups_match(count_upto(*state, role as int), groups@),
            groups_fit(groups@, most as nat, use_n, community_len, role as int),
            most == most_hidden(rivals(*state, role as int), rivals(*state, role as int).len() as int),
            left@ == start.difference(
                open_cards(rivals(*state, role as int), rivals(*state, role as int).len() as int),
            ),
        decreases state.players@.len() - role,
    {
        let player = &state.players[role];
        let ghost before = count_upto(*state, role as int);
        let ghost after = count_upto(*state, role + 1);
        let ghost old_groups = groups@;
        let ghost old_left = left@;
        if role != state.role && !player.folded {
            let (visible, hidden) = split_seen(&player.hand, left);
            let ghost shown = Shown { open: visible@, hidden: hidden as nat };
            proof {
                assert(after.rivals == before.rivals.push(shown));
                lemma_rivals_prefix(before.rivals, after.rivals, before.rivals.len() as int);
                assert(left@ =~= start.difference(
                    open_cards(after.rivals, after.rivals.len() as int),
                ));
            }
            let mut found = false;
            let mut g: usize = 0;
            while g < groups.len() && !found
                invariant
                    g <= groups@.len(),
                    !found ==> groups@ == old_groups,
                    found ==> {
                        &&& g < old_groups.len()
                        &&& groups@.len() == old_groups.len()
                        &&& forall|i: int|
                            0 <= i < old_groups.len() && i != g ==> old_groups[i] == groups@[i]
                        &&& groups@[g as int].visible == old_groups[g as int].visible
                        &&& groups@[g as int].hidden == old_groups[g as int].hidden
                        &&& groups@[g as int].roles == old_groups[g as int].roles + 1
                        &&& old_groups[g as int].visible == visible
                        &&& old_groups[g as int].hidden == hidden
                    },
                    groups_fit(old_groups, most as nat, use_n, community_len, role as int),
                    role < usize::MAX,
                decreases groups@.len() - g + (if found { 0int } else { 1int }),
            {
                if groups[g].visible == visible && groups[g].hidden == hidden {
                    assert(old_groups[g as int].roles <= role);
                    let roles = add_up(groups[g].roles, 1);
                    groups[g].roles = roles;
                    found = true;
                } else {
                    g = g + 1;
                }
            }
            if !found {
                if hidden > most {
                    most = hidden;
                }
                groups.push(Seen { visible, hidden, roles: 1 });
            }
            proof {
                let n = before.rivals.len() as int;
                assert forall|won_only: bool, community: Seq<Card>, mine: Seq<Card>, dealt: Seq<Card>| #[trigger]
                    group_showdowns(after, won_only, community, mine, groups@, dealt, groups@.len() as int)
                        == showdowns(after, won_only, community, mine, dealt, after.rivals.len() as int) by {
                    let m = old_groups.len() as int;
                    assert(group_showdowns(before, won_only, community, mine, old_groups, dealt, m)
                        == showdowns(before, won_only, community, mine, dealt, n));
                    lemma_showdowns_prefix(before, after, won_only, community, mine, dealt, n);
                    let theirs = shown.open + dealt.take(shown.hidden as int);
                    lemma_same_rules(before, after, community, mine, theirs);
                    if found {
                        lemma_group_grows(
                            before,
                            after,
                            won_only,
                            community,
                            mine,
                            old_groups,
                            groups@,
                            dealt,
                            g as int,
                            m,
                        );
                    } else {
                        lemma_groups_prefix(
                            before,
                            after,
                            won_only,
                            community,
                            mine,
                            old_groups,
                            groups@,
                            dealt,
                            m,
                        );
                    }
                }
                assert(groups_fit(groups@, most as nat, use_n, community_len, role + 1)) by {
                    assert forall|k: int| 0 <= k < groups@.len() implies {
                        let seen = #[trigger] groups@[k];
                        &&& seen.hidden <= most
                        &&& seen.roles <= role + 1
                        &&& seen.visible@.len() + seen.hidden <= CARD_TUPLE_CAPACITY
                        &&& 0 < cards_in_hand((seen.visible@.len() + seen.hidden) as nat, use_n)
                            + community_len <= CARD_TUPLE_CAPACITY
                    } by {
                        if k < old_groups.len() {
                            let was = old_groups[k];
                            assert(was.hidden <= most);
                        }
                    }
                }
            }
        } else {
            proof {
                assert(after.rivals == before.rivals);
                assert forall|won_only: bool, community: Seq<Card>, mine: Seq<Card>, dealt: Seq<Card>| #[trigger]
                    group_showdowns(after, won_only, community, mine, groups@, dealt, groups@.len() as int)
                        == showdowns(after, won_only, community, mine, dealt, after.rivals.len() as int) by {
                    assert(group_showdowns(
                        before,
                        won_only,
                        community,
                        mine,
                        groups@,
                        dealt,
                        groups@.len() as int,
                    ) == showdowns(
                        before,
                        won_only,
                        community,
                        mine,
                        dealt,
                        before.rivals.len() as int,
                    ));
                }
                assert forall|k: int| 0 <= k < groups@.len() implies (#[trigger] groups@[k]).roles
                    <= role + 1 by {
                    assert(groups@[k].roles <= role);
                }
            }
        }
        role = role + 1;
    }
    (groups, most)
}

/// How often a hand whose best is `my_best` beats the hands of the
/// rivals, over all ways to deal the rivals their hidden cards from
/// `left`.
fn rival_odds(
    groups: &Vec<Seen>,
    most: usize,
    use_from_hand: usize,
    rules: &SpecialRules,
    community: CardTuple,
    my_best: HandStrength,
    left: CardSet,
    Ghost(c): Ghost<Count>,
    Ghost(mine): Ghost<Seq<Card>>,
) -> (r: WinRatio)
    requires
        c.use_from_hand == use_from_hand,
        c.rules == rules@,
        most == most_hidden(c.rivals, c.rivals.len() as int),
        most <= CARD_TUPLE_CAPACITY,
        groups_match(c, groups@),
        groups_fit(groups@, most as nat, use_from_hand as nat, community@.len(), usize::MAX as int),
        is_best_using(
            use_from_hand as nat,
            mine,
            community@,
            SHOWDOWN_HAND_SIZE as nat,
            rules@,
            my_best.key(),
        ),
    ensures
        r.won == capped(rival_deals(c, true, community@, mine, left@)),
        r.total == capped(rival_deals(c, false, community@, mine, left@)),
        r.won <= r.total,
{
    let mut won: u64 = 0;
    let mut total: u64 = 0;
    let ghost mut wins: int = 0;
    let ghost mut all: int = 0;
    let ghost n = deck_order(left@).len() as int;
    let ghost for_wins = rival_summand(c, true, community@, mine, left@);
    let ghost for_all = rival_summand(c, false, community@, mine, left@);
    let mut combos = combinations(set_cards(&left), most);
    loop
        invariant
            combos.wf(),
            combos.size() == most,
            !combos.with_replacement(),
            combos.source() == deck_order(left@),
            n == deck_order(left@).len(),
            forall|i: int| 0 <= i < combos.source().len() ==> (#[trigger] combos.source()[i]).in_deck(),
            for_wins == rival_summand(c, true, community@, mine, left@),
            for_all == rival_summand(c, false, community@, mine, left@),
            wins + sum_over(walk(n, false, combos.pending()), for_wins) == rival_deals(
                c,
                true,
                community@,
                mine,
                left@,
            ),
            all + sum_over(walk(n, false, combos.pending()), for_all) == rival_deals(
                c,
                false,
                community@,
                mine,
                left@,
            ),
            won == capped(wins),
            total == capped(all),
            won <= total,
            c.use_from_hand == use_from_hand,
            c.rules == rules@,
            most == most_hidden(c.rivals, c.rivals.len() as int),
            most <= CARD_TUPLE_CAPACITY,
            groups_match(c, groups@),
            groups_fit(groups@, most as nat, use_from_hand as nat, community@.len(), usize::MAX as int),
            is_best_using(
                use_from_hand as nat,
                mine,
                community@,
                SHOWDOWN_HAND_SIZE as nat,
                rules@,
                my_best.key(),
            ),
        decreases combos.remaining(),
    {
        let ghost pending = combos.pending();
        let dealt = match next_cards(&mut combos) {
            Some(v) => v,
            None => {
                return WinRatio { won, total };
            },
        };
        let ghost sel = pending->Some_0;
        let ghost wins_before = wins;
        let ghost all_before = all;
        proof {
            lemma_sum_over_walk(n, false, sel, for_wins);
            lemma_sum_over_walk(n, false, sel, for_all);
        }
        let mut g: usize = 0;
        while g < groups.len()
            invariant
                g <= groups@.len(),
                wins == wins_before + group_showdowns(c, true, community@, mine, groups@, dealt@, g as int),
                all == all_before + group_showdowns(c, false, community@, mine, groups@, dealt@, g as int),
                won == capped(wins),
                total == capped(all),
                won <= total,
                dealt@.len() == most,
                forall|i: int| 0 <= i < dealt@.len() ==> (#[trigger] dealt@[i]).in_deck(),
                c.use_from_hand == use_from_hand,
                c.rules == rules@,
                groups_fit(
                    groups@,
                    most as nat,
                    use_from_hand as nat,
                    community@.len(),
                    usize::MAX as int,
                ),
                is_best_using(
                    use_from_hand as nat,
                    mine,
                    community@,
                    SHOWDOWN_HAND_SIZE as nat,
                    rules@,
                    my_best.key(),
                ),
            decreases groups@.len() - g,
        {
            let roles = groups[g].roles;
            let hidden = groups[g].hidden;
            total = add_up(total, roles);
            let (hand, _) = take_cards(groups[g].visible, &dealt, hidden, left);
            let best = best_hand_use_from_hand(
                use_from_hand,
                hand,
                community,
                SHOWDOWN_HAND_SIZE,
                rules,
            );
            let beaten = my_best.beats(&best);
            proof {
                lemma_beats(c, community@, mine, hand@, my_best.key(), best.key());
                all = all + roles;
                if beaten {
                    wins = wins + roles;
                }
            }
            if beaten {
                won = add_up(won, roles);
            }
            g = g + 1;
        }
        proof {
            assert(group_showdowns(c, true, community@, mine, groups@, dealt@, groups@.len() as int)
                == showdowns(c, true, community@, mine, dealt@, c.rivals.len() as int));
            assert(group_showdowns(c, false, community@, mine, groups@, dealt@, groups@.len() as int)
                == showdowns(c, false, community@, mine, dealt@, c.rivals.len() as int));
        }
    }
}

/// Whether one best hand beats another is told by their strengths.
proof fn lemma_beats(
    c: Count,
    community: Seq<Card>,
    mine: Seq<Card>,
    theirs: Seq<Card>,
    a: StrengthKey,
    b: StrengthKey,
)
    requires
        is_best_using(c.use_from_hand, mine, community, SHOWDOWN_HAND_SIZE as nat, c.rules, a),
        is_best_using(c.use_from_hand, theirs, community, SHOWDOWN_HAND_SIZE as nat, c.rules, b),
    ensures
        hand_beats(c, community, mine, theirs) == (key_order(a, b) > 0),
{
    if hand_beats(c, community, mine, theirs) {
        let (x, y) = choose|x: StrengthKey, y: StrengthKey|
            #![trigger key_order(x, y)]
            {
                &&& is_best_using(
                    c.use_from_hand,
                    mine,
                    community,
                    SHOWDOWN_HAND_SIZE as nat,
                    c.rules,
                    x,
                )
                &&& is_best_using(
                    c.use_from_hand,
                    theirs,
                    community,
                    SHOWDOWN_HAND_SIZE as nat,
                    c.rules,
                    y,
                )
                &&& key_order(x, y) > 0
            };
        crate::pots::lemma_best_using_unique(
            c.use_from_hand,
            mine,
            community,
            SHOWDOWN_HAND_SIZE as nat,
            c.rules,
            a,
            x,
        );
        crate::pots::lemma_best_using_unique(
            c.use_from_hand,
            theirs,
            community,
            SHOWDOWN_HAND_SIZE as nat,
            c.rules,
            b,
            y,
        );
    }
    if key_order(a, b) > 0 {
        assert(hand_beats(c, community, mine, theirs));
    }
}

/// How often the viewer, who shows the cards `seen` and hides `hidden`
/// more, beats the rivals, over all ways to deal the viewer and then the
/// rivals their hidden cards from `left`.
fn my_odds(
    groups: &Vec<Seen>,
    most: usize,
    use_from_hand: usize,
    rules: &SpecialRules,
    community: CardTuple,
    seen: CardTuple,
    hidden: usize,
    left: CardSet,
    Ghost(c): Ghost<Count>,
) -> (r: WinRatio)
    requires
        c.use_from_hand == use_from_hand,
        c.rules == rules@,
        most == most_hidden(c.rivals, c.rivals.len() as int),
        most <= CARD_TUPLE_CAPACITY,
        groups_match(c, groups@),
        groups_fit(groups@, most as nat, use_from_hand as nat, community@.len(), usize::MAX as int),
        seen@.len() + hidden <= CARD_TUPLE_CAPACITY,
        0 < cards_in_hand((seen@.len() + hidden) as nat, use_from_hand as nat) + community@.len()
            <= CARD_TUPLE_CAPACITY,
    ensures
        r.won == capped(my_deals(c, true, community@, seen@, hidden as nat, left@)),
        r.total == capped(my_deals(c, false, community@, seen@, hidden as nat, left@)),
        r.won <= r.total,
{
    let mut won: u64 = 0;
    let mut total: u64 = 0;
    let ghost mut wins: int = 0;
    let ghost mut all: int = 0;
    let ghost n = deck_order(left@).len() as int;
    let ghost for_wins = my_summand(c, true, community@, seen@, left@);
    let ghost for_all = my_summand(c, false, community@, seen@, left@);
    let mut combos = combinations(set_cards(&left), hidden);
    loop
        invariant
            combos.wf(),
            combos.size() == hidden,
            !combos.with_replacement(),
            combos.source() == deck_order(left@),
            n == deck_order(left@).len(),
            forall|i: int| 0 <= i < combos.source().len() ==> (#[trigger] combos.source()[i]).in_deck(),
            for_wins == my_summand(c, true, community@, seen@, left@),
            for_all == my_summand(c, false, community@, seen@, left@),
            wins + sum_over(walk(n, false, combos.pending()), for_wins) == my_deals(
                c,
                true,
                community@,
                seen@,
                hidden as nat,
                left@,
            ),
            all + sum_over(walk(n, false, combos.pending()), for_all) == my_deals(
                c,
                false,
                community@,
                seen@,
                hidden as nat,
                left@,
            ),
            won == capped(wins),
            total == capped(all),
            won <= total,
            c.use_from_hand == use_from_hand,
            c.rules == rules@,
            most == most_hidden(c.rivals, c.rivals.len() as int),
            most <= CARD_TUPLE_CAPACITY,
            groups_match(c, groups@),
            groups_fit(groups@, most as nat, use_from_hand as nat, community@.len(), usize::MAX as int),
            seen@.len() + hidden <= CARD_TUPLE_CAPACITY,
            0 < cards_in_hand((seen@.len() + hidden) as nat, use_from_hand as nat)
                + community@.len() <= CARD_TUPLE_CAPACITY,
        decreases combos.remaining(),
    {
        let ghost pending = combos.pending();
        let dealt = match next_cards(&mut combos) {
            Some(v) => v,
            None => {
                return WinRatio { won, total };
            },
        };
        let ghost sel = pending->Some_0;
        proof {
            lemma_sum_over_walk(n, false, sel, for_wins);
            lemma_sum_over_walk(n, false, sel, for_all);
            assert(dealt@.take(hidden as int) =~= dealt@);
        }
        let (hand, rest) = take_cards(seen, &dealt, hidden, left);
        let my_best = best_hand_use_from_hand(
            use_from_hand,
            hand,
            community,
            SHOWDOWN_HAND_SIZE,
            rules,
        );
        let odds = rival_odds(
            groups,
            most,
            use_from_hand,
            rules,
            community,
            my_best,
            rest,
            Ghost(c),
            Ghost(hand@),
        );
        won = add_up(won, odds.won);
        total = add_up(total, odds.total);
        proof {
            wins = wins + rival_deals(c, true, community@, hand@, rest@);
            all = all + rival_deals(c, false, community@, hand@, rest@);
        }
    }
}

/// How often the hand of the viewer beats the hand of another player who
/// is still in, over all ways in which the cards that the viewer does not
/// see can be dealt from `cards_left`: first to the community, then to
/// the viewer, then to the other players, who are each dealt from the
/// same cards.
pub fn win_ratio_cards_left(state: &PokerViewState, cards_left: CardSet) -> (r: WinRatio)
    requires
        can_count(*state),
    ensures
        r.won == capped(outcomes(*state, cards_left@, true)),
        r.total == capped(outcomes(*state, cards_left@, false)),
        r.won <= r.total,
{
    let mut won: u64 = 0;
    let mut total: u64 = 0;
    let ghost mut wins: int = 0;
    let ghost mut all: int = 0;
    let use_from_hand = state.variant.use_from_hand;
    let ghost c = count_upto(*state, state.players@.len() as int);
    let mut left = cards_left;
    let (community_seen, community_hidden) = split_seen(&state.community_cards, &mut left);
    let (my_seen, my_hidden) = split_seen(&state.players[state.role].hand, &mut left);
    let (groups, most) = group_rivals(state, &mut left);
    let seats = state.players.len();
    let ghost n = deck_order(left@).len() as int;
    let ghost for_wins = community_summand(c, true, community_seen@, my_seen@, my_hidden as nat, left@);
    let ghost for_all = community_summand(c, false, community_seen@, my_seen@, my_hidden as nat, left@);
    proof {
        assert(left@ == unseen(*state, cards_left@));
        assert(groups_fit(
            groups@,
            most as nat,
            use_from_hand as nat,
            state.community_cards@.len(),
            usize::MAX as int,
        ));
    }
    let mut combos = combinations(set_cards(&left), community_hidden);
    loop
        invariant
            combos.wf(),
            combos.size() == community_hidden,
            !combos.with_replacement(),
            combos.source() == deck_order(left@),
            n == deck_order(left@).len(),
            forall|i: int| 0 <= i < combos.source().len() ==> (#[trigger] combos.source()[i]).in_deck(),
            for_wins == community_summand(c, true, community_seen@, my_seen@, my_hidden as nat, left@),
            for_all == community_summand(c, false, community_seen@, my_seen@, my_hidden as nat, left@),
            wins + sum_over(walk(n, false, combos.pending()), for_wins) == outcomes(
                *state,
                cards_left@,
                true,
            ),
            all + sum_over(walk(n, false, combos.pending()), for_all) == outcomes(
                *state,
                cards_left@,
                false,
            ),
            won == capped(wins),
            total == capped(all),
            won <= total,
            can_count(*state),
            c == count_upto(*state, state.players@.len() as int),
            use_from_hand == state.variant.use_from_hand,
            community_seen@.len() + community_hidden == state.community_cards@.len(),
            my_seen@.len() + my_hidden == state.players@[state.role as int].hand@.len(),
            most == most_hidden(c.rivals, c.rivals.len() as int),
            most <= CARD_TUPLE_CAPACITY,
            groups_match(c, groups@),
            groups_fit(
                groups@,
                most as nat,
                use_from_hand as nat,
                state.community_cards@.len(),
                usize::MAX as int,
            ),
        decreases combos.remaining(),
    {
        let ghost pending = combos.pending();
        let dealt = match next_cards(&mut combos) {
            Some(v) => v,
            None => {
                return WinRatio { won, total };
            },
        };
        let ghost sel = pending->Some_0;
        proof {
            lemma_sum_over_walk(n, false, sel, for_wins);
            lemma_sum_over_walk(n, false, sel, for_all);
            assert(dealt@.take(community_hidden as int) =~= dealt@);
            let me = state.players@[state.role as int];
            assert(0 < cards_in_hand(me.hand@.len(), use_from_hand as nat)
                + state.community_cards@.len() <= CARD_TUPLE_CAPACITY);
        }
        let (community, rest) = take_cards(community_seen, &dealt, community_hidden, left);
        let odds = my_odds(
            &groups,
            most,
            use_from_hand,
            &state.rules,
            community,
            my_seen,
            my_hidden,
            rest,
            Ghost(c),
        );
        won = add_up(won, odds.won);
        total = add_up(total, odds.total);
        proof {
            wins = wins + my_deals(c, true, community@, my_seen@, my_hidden as nat, rest@);
            all = all + my_deals(c, false, community@, my_seen@, my_hidden as nat, rest@);
        }
    }
}

/// The cards of `hand` at the first `k` positions but for those at the
/// positions `picked`.
pub open spec fn kept_cards(hand: Seq<Card>, picked: Seq<int>, k: int) -> Seq<Card>
    decreases k,
{
    if k <= 0 {
        Seq::empty()
    } else {
        let before = kept_cards(hand, picked, k - 1);
        if picked.contains(k - 1) {
            before
        } else {
            before.push(hand[k - 1])
        }
    }
}

/// How many of the positions `sel` lie below `k`.
spec fn below(sel: Seq<int>, k: int) -> int
    decreases sel.len(),
{
    if sel.len() == 0 {
        0
    } else {
        below(sel.drop_last(), k) + if sel.last() < k {
            1int
        } else {
            0int
        }
    }
}

proof fn lemma_below_step(n: int, sel: Seq<int>, k: int)
    requires
        valid_selection(n, false, sel),
    ensures
        below(sel, k + 1) == below(sel, k) + if sel.contains(k) {
            1int
        } else {
            0int
        },
    decreases sel.len(),
{
    if sel.len() > 0 {
        let head = sel.drop_last();
        let last = sel.len() - 1;
        assert forall|i: int, j: int| 0 <= i < j < head.len() implies head[i] < head[j] by {
            assert(sel[i] < sel[j]);
        }
        assert forall|i: int| 0 <= i < head.len() implies 0 <= #[trigger] head[i] < n by {
            assert(head[i] == sel[i]);
        }
        lemma_below_step(n, head, k);
        if head.contains(k) {
            let i = choose|i: int| 0 <= i < head.len() && head[i] == k;
            assert(sel[i] == k);
            assert(sel[i] < sel[last]);
        } else if sel[last] == k {
        } else {
            if sel.contains(k) {
                let i = choose|i: int| 0 <= i < sel.len() && sel[i] == k;
                if i < last {
                    assert(head[i] == k);
                }
            }
        }
    }
}

proof fn lemma_below_all(n: int, sel: Seq<int>)
    requires
        valid_selection(n, false, sel),
    ensures
        below(sel, 0) == 0,
        below(sel, n) == sel.len(),
    decreases sel.len(),
{
    if sel.len() > 0 {
        let head = sel.drop_last();
        assert forall|i: int, j: int| 0 <= i < j < head.len() implies head[i] < head[j] by {
            assert(sel[i] < sel[j]);
        }
        assert forall|i: int| 0 <= i < head.len() implies 0 <= #[trigger] head[i] < n by {
            assert(head[i] == sel[i]);
        }
        lemma_below_all(n, head);
        assert(0 <= sel[sel.len() - 1] < n);
    }
}

/// Of the cards before position `k`, those that are kept and those that
/// are picked make up all.
proof fn lemma_kept_upto(hand: Seq<Card>, n: int, sel: Seq<int>, k: int)
    requires
        valid_selection(n, false, sel),
        0 <= k,
    ensures
        kept_cards(hand, sel, k).len() + below(sel, k) == k,
    decreases k,
{
    lemma_below_all(n, sel);
    if k > 0 {
        lemma_kept_upto(hand, n, sel, k - 1);
        lemma_below_step(n, sel, k - 1);
    }
}

/// What is kept of a hand and what is picked make up the hand.
proof fn lemma_kept_len(hand: Seq<Card>, sel: Seq<int>)
    requires
        valid_selection(hand.len() as int, false, sel),
    ensures
        kept_cards(hand, sel, hand.len() as int).len() + sel.len() == hand.len(),
{
    lemma_kept_upto(hand, hand.len() as int, sel, hand.len() as int);
    lemma_below_all(hand.len() as int, sel);
}

/// The cards of `hand` but for those at the positions `picked`.
fn without(hand: CardTuple, picked: &Vec<usize>) -> (r: CardTuple)
    ensures
        r@ == kept_cards(hand@, positions(picked@), hand@.len() as int),
{
    let mut kept = CardTuple::new();
    let n = hand.len();
    let mut idx: usize = 0;
    while idx < n
        invariant
            idx <= n,
            n == hand@.len(),
            n <= CARD_TUPLE_CAPACITY,
            kept@.len() <= idx,
            kept@ == kept_cards(hand@, positions(picked@), idx as int),
        decreases n - idx,
    {
        let mut is_picked = false;
        let mut k: usize = 0;
        while k < picked.len()
            invariant
                k <= picked@.len(),
                is_picked <==> exists|j: int| 0 <= j < k && #[trigger] picked@[j] == idx,
            decreases picked@.len() - k,
        {
            if picked[k] == idx {
                is_picked = true;
            }
            k = k + 1;
        }
        proof {
            let chosen = positions(picked@);
            if is_picked {
                let j = choose|j: int| 0 <= j < picked@.len() && #[trigger] picked@[j] == idx;
                assert(chosen[j] == idx);
            }
            if chosen.contains(idx as int) {
                let j = choose|j: int| 0 <= j < chosen.len() && chosen[j] == idx;
                assert(picked@[j] == idx);
            }
        }
        if !is_picked {
            kept.push(hand.get(idx));
        }
        idx = idx + 1;
    }
    kept
}

/// The cards can be replaced: what the viewer sees are cards of the deck,
/// and the cards of the viewer make something together with the
/// community.
pub open spec fn can_replace(state: PokerViewState) -> bool {
    &&& sees_deck_cards(state)
    &&& state.role < state.players@.len()
    &&& state.community_cards@.len() <= CARD_TUPLE_CAPACITY
    &&& state.players@[state.role as int].hand@.len() <= CARD_TUPLE_CAPACITY
    &&& 0 < cards_in_hand(
        visible_of(state.players@[state.role as int].hand@).len(),
        state.variant.use_from_hand as nat,
    ) + visible_of(state.community_cards@).len() <= CARD_TUPLE_CAPACITY
}

/// The cards of the viewer that lie open.
pub open spec fn held_cards(state: PokerViewState) -> Seq<Card> {
    visible_of(state.players@[state.role as int].hand@)
}

/// What the cards `after` are worth beside the cards `before`: one where
/// they make the better hand, one less than nothing where they make the
/// worse.
pub open spec fn gain(c: Count, community: Seq<Card>, before: Seq<Card>, after: Seq<Card>) -> int {
    if hand_beats(c, community, after, before) {
        1
    } else if hand_beats(c, community, before, after) {
        -1
    } else {
        0
    }
}

/// What each way to draw cards from `left` to the cards `kept` is worth
/// beside the cards `held`.
pub open spec fn draw_summand(
    c: Count,
    community: Seq<Card>,
    held: Seq<Card>,
    kept: Seq<Card>,
    left: Set<Card>,
) -> spec_fn(Seq<int>) -> int {
    |sel: Seq<int>| gain(c, community, held, kept + pick(deck_order(left), sel))
}

/// In how many ways `k` cards can be drawn for the viewer.
pub open spec fn replace_draws(state: PokerViewState, k: nat) -> int {
    let left = whole_deck().difference(seen_cards(state));
    selections(deck_order(left).len() as int, false, k).len() as int
}

/// What replacing the cards at the positions `picked` is worth over all
/// draws: the draws that make the hand better less those that make it
/// worse.
pub open spec fn replace_gain(state: PokerViewState, picked: Seq<int>) -> int {
    let held = held_cards(state);
    let left = whole_deck().difference(seen_cards(state));
    sum_over(
        selections(deck_order(left).len() as int, false, picked.len()),
        draw_summand(
            count_upto(state, 0),
            visible_of(state.community_cards@),
            held,
            kept_cards(held, picked, held.len() as int),
            left,
        ),
    )
}

/// A choice of cards to replace, with what it is worth over how many
/// draws.
pub struct Choice {
    pub picked: Seq<int>,
    pub gain: int,
    pub draws: int,
}

/// A choice worth `gain` over `draws` draws is worth more by the draw
/// than `best`.
pub open spec fn outdoes(gain: int, draws: int, best: Choice) -> bool {
    draws > 0 && gain * best.draws > best.gain * draws
}

/// The best of `best` and the choices `choices`: of two that are worth
/// the same by the draw, the earlier.
pub open spec fn best_among(state: PokerViewState, choices: Seq<Seq<int>>, best: Choice) -> Choice
    decreases choices.len(),
{
    if choices.len() == 0 {
        best
    } else {
        let picked = choices.first();
        let gain = replace_gain(state, picked);
        let draws = replace_draws(state, picked.len());
        best_among(
            state,
            choices.drop_first(),
            if outdoes(gain, draws, best) {
                Choice { picked, gain, draws }
            } else {
                best
            },
        )
    }
}

/// The best choice of no more than `most` cards to replace: fewer cards
/// before more, and to keep the hand as it is before all.
pub open spec fn best_choice(state: PokerViewState, most: int) -> Choice
    decreases most,
{
    if most <= 0 {
        Choice { picked: Seq::empty(), gain: 0, draws: 1 }
    } else {
        best_among(
            state,
            selections(held_cards(state).len() as int, false, most as nat),
            best_choice(state, most - 1),
        )
    }
}

/// The smaller of two numbers.
pub open spec fn fewest(a: int, b: int) -> int {
    if a < b {
        a
    } else {
        b
    }
}

/// No more draws than this are counted for one choice.
const MOST_DRAWS: i64 = 3_299_763_591_802_133;

proof fn lemma_few_draws(n: int, len: nat)
    requires
        0 <= n <= DECK_SIZE,
        len <= CARD_TUPLE_CAPACITY,
    ensures
        span(n, len) <= MOST_DRAWS,
{
    lemma_span_grows(n, 52, len, 9);
    assert(span(52, 0) == 1);
    assert(span(52, 1) == 53);
    assert(span(52, 2) == 2_809);
    assert(span(52, 3) == 148_877);
    assert(span(52, 4) == 7_890_481);
    assert(span(52, 5) == 418_195_493);
    assert(span(52, 6) == 22_164_361_129);
    assert(span(52, 7) == 1_174_711_139_837);
    assert(span(52, 8) == 62_259_690_411_361);
    assert(span(52, 9) == 3_299_763_591_802_133);
}

/// What drawing `num_replace` cards from `left` to the cards `kept` is
/// worth beside the hand as it was, and in how many ways they can be
/// drawn.
fn draw_odds(
    use_from_hand: usize,
    rules: &SpecialRules,
    community: CardTuple,
    start: HandStrength,
    kept: CardTuple,
    num_replace: usize,
    left: CardSet,
    Ghost(c): Ghost<Count>,
    Ghost(held): Ghost<Seq<Card>>,
) -> (r: (i64, i64))
    requires
        c.use_from_hand == use_from_hand,
        c.rules == rules@,
        kept@.len() + num_replace == held.len(),
        held.len() <= CARD_TUPLE_CAPACITY,
        0 < cards_in_hand(held.len(), use_from_hand as nat) + community@.len()
            <= CARD_TUPLE_CAPACITY,
        is_best_using(
            use_from_hand as nat,
            held,
            community@,
            SHOWDOWN_HAND_SIZE as nat,
            rules@,
            start.key(),
        ),
    ensures
        r.0 == sum_over(
            selections(deck_order(left@).len() as int, false, num_replace as nat),
            draw_summand(c, community@, held, kept@, left@),
        ),
        r.1 == selections(deck_order(left@).len() as int, false, num_replace as nat).len(),
        -r.1 <= r.0 <= r.1,
{
    let mut good: i64 = 0;
    let mut total: i64 = 0;
    let ghost n = deck_order(left@).len() as int;
    let ghost summand = draw_summand(c, community@, held, kept@, left@);
    let mut draws = combinations(set_cards(&left), num_replace);
    proof {
        draws.lemma_remaining();
        lemma_few_draws(n, num_replace as nat);
    }
    loop
        invariant
            draws.wf(),
            draws.size() == num_replace,
            !draws.with_replacement(),
            draws.source() == deck_order(left@),
            n == deck_order(left@).len(),
            forall|i: int| 0 <= i < draws.source().len() ==> (#[trigger] draws.source()[i]).in_deck(),
            summand == draw_summand(c, community@, held, kept@, left@),
            good + sum_over(walk(n, false, draws.pending()), summand) == sum_over(
                selections(n, false, num_replace as nat),
                summand,
            ),
            total + walk(n, false, draws.pending()).len() == selections(
                n,
                false,
                num_replace as nat,
            ).len(),
            0 <= total,
            total + draws.remaining() <= MOST_DRAWS,
            -total <= good <= total,
            c.use_from_hand == use_from_hand,
            c.rules == rules@,
            kept@.len() + num_replace == held.len(),
            held.len() <= CARD_TUPLE_CAPACITY,
            0 < cards_in_hand(held.len(), use_from_hand as nat) + community@.len()
                <= CARD_TUPLE_CAPACITY,
            is_best_using(
                use_from_hand as nat,
                held,
                community@,
                SHOWDOWN_HAND_SIZE as nat,
                rules@,
                start.key(),
            ),
        decreases draws.remaining(),
    {
        let ghost pending = draws.pending();
        let combo = match next_cards(&mut draws) {
            Some(v) => v,
            None => {
                proof {
                    assert(walk(n, false, None) =~= Seq::<Seq<int>>::empty());
                }
                return (good, total);
            },
        };
        let ghost sel = pending->Some_0;
        proof {
            lemma_sum_over_walk(n, false, sel, summand);
            assert(walk(n, false, Some(sel)) =~= seq![sel] + walk(n, false, draws.pending()));
            assert(combo@.take(num_replace as int) =~= combo@);
        }
        total = total + 1;
        let (new_hand, _) = take_cards(kept, &combo, num_replace, left);
        let st = best_hand_use_from_hand(
            use_from_hand,
            new_hand,
            community,
            SHOWDOWN_HAND_SIZE,
            rules,
        );
        let order = st.order(&start);
        proof {
            lemma_beats(c, community@, new_hand@, held, st.key(), start.key());
            lemma_beats(c, community@, held, new_hand@, start.key(), st.key());
            lemma_key_order_total(st.key(), start.key(), st.key());
        }
        if order > 0 {
            good = good + 1;
        } else if order < 0 {
            good = good - 1;
        }
    }
}

/// A choice as the machine holds it.
spec fn choice_of(best: (Vec<usize>, i64, i64)) -> Choice {
    Choice { picked: positions(best.0@), gain: best.1 as int, draws: best.2 as int }
}

/// The positions `picked` lie in a hand of `held` cards, lower positions
/// first, and are no more than `most`.
spec fn picks_fit(picked: Seq<usize>, held: nat, most: int) -> bool {
    &&& picked.len() <= most
    &&& forall|i: int| 0 <= i < picked.len() ==> (#[trigger] picked[i]) < held
    &&& forall|i: int, j: int| 0 <= i < j < picked.len() ==> picked[i] < picked[j]
}

/// The best of `best` and the choices of `num_replace` cards to replace.
fn best_of_size(
    state: &PokerViewState,
    spots: &Vec<usize>,
    num_replace: usize,
    hand: CardTuple,
    community: CardTuple,
    start: HandStrength,
    left: CardSet,
    so_far: (Vec<usize>, i64, i64),
) -> (r: (Vec<usize>, i64, i64))
    requires
        can_replace(*state),
        hand@ == held_cards(*state),
        community@ == visible_of(state.community_cards@),
        left@ == whole_deck().difference(seen_cards(*state)),
        is_best_using(
            state.variant.use_from_hand as nat,
            hand@,
            community@,
            SHOWDOWN_HAND_SIZE as nat,
            state.rules@,
            start.key(),
        ),
        spots@.len() == hand@.len(),
        forall|i: int| 0 <= i < spots@.len() ==> spots@[i] == i,
        1 <= num_replace <= hand@.len(),
        hand@.len() <= CARD_TUPLE_CAPACITY,
        so_far.2 > 0,
        picks_fit(so_far.0@, hand@.len(), num_replace as int),
    ensures
        choice_of(r) == best_among(
            *state,
            selections(hand@.len() as int, false, num_replace as nat),
            choice_of(so_far),
        ),
        r.2 > 0,
        picks_fit(r.0@, hand@.len(), num_replace as int),
{
    let ghost held = hand@.len() as int;
    let ghost c = count_upto(*state, 0);
    let ghost first = choice_of(so_far);
    let mut best = so_far;
    let mut choices = combinations(spots.clone(), num_replace);
    loop
        invariant
            choices.wf(),
            choices.source() == spots@,
            choices.size() == num_replace,
            !choices.with_replacement(),
            held == hand@.len(),
            c == count_upto(*state, 0),
            first == choice_of(so_far),
            best_among(*state, walk(held, false, choices.pending()), choice_of(best)) == best_among(
                *state,
                selections(held, false, num_replace as nat),
                first,
            ),
            best.2 > 0,
            picks_fit(best.0@, hand@.len(), num_replace as int),
            can_replace(*state),
            hand@ == held_cards(*state),
            community@ == visible_of(state.community_cards@),
            left@ == whole_deck().difference(seen_cards(*state)),
            is_best_using(
                state.variant.use_from_hand as nat,
                hand@,
                community@,
                SHOWDOWN_HAND_SIZE as nat,
                state.rules@,
                start.key(),
            ),
            spots@.len() == hand@.len(),
            forall|i: int| 0 <= i < spots@.len() ==> spots@[i] == i,
            1 <= num_replace <= hand@.len(),
            hand@.len() <= CARD_TUPLE_CAPACITY,
        decreases choices.remaining(),
    {
        proof {
            choices.lemma_pending();
        }
        let ghost pending = choices.pending();
        let picked = match choices.next() {
            Some(v) => v,
            None => {
                proof {
                    assert(walk(held, false, None) =~= Seq::<Seq<int>>::empty());
                    assert(best_among(*state, Seq::<Seq<int>>::empty(), choice_of(best))
                        == choice_of(best));
                }
                return best;
            },
        };
        let ghost sel = pending->Some_0;
        proof {
            assert(picked@ =~= pick(spots@, sel));
            assert(positions(picked@) =~= sel) by {
                assert forall|i: int| 0 <= i < sel.len() implies positions(picked@)[i] == sel[i] by {
                    assert(0 <= sel[i] < held);
                    assert(picked@[i] == spots@[sel[i]]);
                }
            }
            assert(picks_fit(picked@, hand@.len(), num_replace as int)) by {
                assert forall|i: int| 0 <= i < picked@.len() implies (#[trigger] picked@[i])
                    < hand@.len() by {
                    assert(positions(picked@)[i] == sel[i]);
                    assert(0 <= sel[i] < held);
                }
                assert forall|i: int, j: int| 0 <= i < j < picked@.len() implies picked@[i]
                    < picked@[j] by {
                    assert(positions(picked@)[i] == sel[i]);
                    assert(positions(picked@)[j] == sel[j]);
                    assert(sel[i] < sel[j]);
                }
            }
            lemma_kept_len(hand@, sel);
            let rest = walk(held, false, choices.pending());
            let all = walk(held, false, Some(sel));
            assert(all =~= seq![sel] + rest);
            assert(all.first() == sel);
            assert(all.drop_first() =~= rest);
        }
        let kept = without(hand, &picked);
        let (good, total) = draw_odds(
            state.variant.use_from_hand,
            &state.rules,
            community,
            start,
            kept,
            num_replace,
            left,
            Ghost(c),
            Ghost(hand@),
        );
        proof {
            assert(good == replace_gain(*state, sel));
            assert(total == replace_draws(*state, sel.len()));
        }
        if total > 0 && is_higher(good, total, best.1, best.2) {
            best = (picked, good, total);
        }
    }
}

/// The cards that the viewer does best to give back: the positions in the
/// hand for which the hand gets better more often than worse, over all
/// cards that may come for them, and most so among all choices of up to
/// `max_can_replace` positions. Nothing is given back where no choice
/// makes the hand better more often than worse.
pub fn best_replace(state: &PokerViewState, max_can_replace: usize) -> (picked: ReplaceResp)
    requires
        can_replace(*state),
    ensures
        positions(picked@) == best_choice(
            *state,
            fewest(max_can_replace as int, held_cards(*state).len() as int),
        ).picked,
        picked@.len() <= max_can_replace,
        forall|i: int| 0 <= i < picked@.len() ==> (#[trigger] picked@[i]) < held_cards(*state).len(),
        forall|i: int, j: int| 0 <= i < j < picked@.len() ==> picked@[i] < picked@[j],
{
    let hand = my_hand(state);
    proof {
        lemma_visible_of(hand@);
        lemma_visible_of(state.community_cards@);
    }
    let player_hand = visible_cards(&hand);
    let community = visible_cards(&state.community_cards);
    let start = best_hand_use_from_hand(
        state.variant.use_from_hand,
        player_hand,
        community,
        SHOWDOWN_HAND_SIZE,
        &state.rules,
    );
    let left = cards_left(state);
    let held = player_hand.len();
    let mut spots: Vec<usize> = Vec::new();
    let mut p: usize = 0;
    while p < held
        invariant
            p <= held,
            spots@.len() == p,
            forall|i: int| 0 <= i < p ==> spots@[i] == i,
        decreases held - p,
    {
        spots.push(p);
        p = p + 1;
    }
    let mut best: (Vec<usize>, i64, i64) = (Vec::new(), 0, 1);
    let mut num_replace: usize = 1;
    proof {
        assert(positions(best.0@) =~= Seq::<int>::empty());
    }
    while num_replace <= max_can_replace && num_replace <= held
        invariant
            1 <= num_replace <= held + 1,
            num_replace - 1 <= max_can_replace,
            held == player_hand@.len(),
            held <= CARD_TUPLE_CAPACITY,
            choice_of(best) == best_choice(*state, num_replace - 1),
            best.2 > 0,
            picks_fit(best.0@, player_hand@.len(), num_replace - 1),
            can_replace(*state),
            player_hand@ == held_cards(*state),
            community@ == visible_of(state.community_cards@),
            left@ == whole_deck().difference(seen_cards(*state)),
            is_best_using(
                state.variant.use_from_hand as nat,
                player_hand@,
                community@,
                SHOWDOWN_HAND_SIZE as nat,
                state.rules@,
                start.key(),
            ),
            spots@.len() == held,
            forall|i: int| 0 <= i < spots@.len() ==> spots@[i] == i,
        decreases held + 1 - num_replace,
    {
        best = best_of_size(state, &spots, num_replace, player_hand, community, start, left, best);
        num_replace = num_replace + 1;
    }
    best.0
}

/// Whether the part `a / b` is more than the part `c / d`.
fn is_higher(a: i64, b: i64, c: i64, d: i64) -> (r: bool)
    requires
        b > 0,
        d > 0,
    ensures
        r == (a * d > c * b),
{
    assert(-0x4000_0000_0000_0000_0000_0000_0000_0000 <= a * d
        <= 0x4000_0000_0000_0000_0000_0000_0000_0000) by (nonlinear_arith)
        requires
            -0x8000_0000_0000_0000 <= a <= 0x7fff_ffff_ffff_ffff,
            0 < d <= 0x7fff_ffff_ffff_ffff,
    ;
    assert(-0x4000_0000_0000_0000_0000_0000_0000_0000 <= c * b
        <= 0x4000_0000_0000_0000_0000_0000_0000_0000) by (nonlinear_arith)
        requires
            -0x8000_0000_0000_0000 <= c <= 0x7fff_ffff_ffff_ffff,
            0 < b <= 0x7fff_ffff_ffff_ffff,
    ;
    (a as i128) * (d as i128) > (c as i128) * (b as i128)
}

/// Whether every card among `cards` that the viewer can see is a card of
/// the deck.
fn shows_deck_cards(cards: &Vec<CardViewState>) -> (r: bool)
    ensures
        r == all_from_deck(cards@),
{
    let mut i: usize = 0;
    while i < cards.len()
        invariant
            i <= cards@.len(),
            forall|k: int|
                0 <= k < i ==> ((#[trigger] cards@[k]) matches CardViewState::Visible(cs)
                    ==> cs.card.in_deck()),
        decreases cards@.len() - i,
    {
        match cards[i] {
            CardViewState::Visible(cs) => {
                if cs.card.suit.0 >= NUM_SUITS || cs.card.rank >= NUM_RANKS {
                    return false;
                }
            },
            CardViewState::Invisible => {},
        }
        i = i + 1;
    }
    true
}

/// How many of `cards` the viewer can see.
fn count_visible(cards: &Vec<CardViewState>) -> (n: usize)
    ensures
        n == visible_of(cards@).len(),
        n <= cards@.len(),
{
    let mut n: usize = 0;
    let mut i: usize = 0;
    assert(cards@.take(0) =~= Seq::<CardViewState>::empty());
    while i < cards.len()
        invariant
            i <= cards@.len(),
            n <= i,
            n == visible_of(cards@.take(i as int)).len(),
        decreases cards@.len() - i,
    {
        proof {
            assert(cards@.take(i + 1).drop_last() =~= cards@.take(i as int));
        }
        match cards[i] {
            CardViewState::Visible(_) => {
                n = n + 1;
            },
            CardViewState::Invisible => {},
        }
        i = i + 1;
    }
    assert(cards@.take(cards@.len() as int) =~= cards@);
    n
}

/// Whether a hand of `held` cards makes something together with a
/// community of `community` cards.
fn makes_a_hand(held: usize, community: usize, use_from_hand: usize) -> (r: bool)
    ensures
        r == (0 < cards_in_hand(held as nat, use_from_hand as nat) + community
            <= CARD_TUPLE_CAPACITY),
{
    let used = if held < use_from_hand {
        held
    } else {
        use_from_hand
    };
    community <= CARD_TUPLE_CAPACITY && used <= CARD_TUPLE_CAPACITY - community && (used > 0
        || community > 0)
}

/// Whether the pot can be counted in `Chips`.
pub fn pot_is_counted(state: &PokerViewState) -> (r: bool)
    ensures
        r == pot_fits(*state),
{
    broadcast use vstd::std_specs::hash::group_hash_axioms;

    let mut total: i64 = 0;
    let mut k: usize = 0;
    while k < state.players.len()
        invariant
            k <= state.players@.len(),
            total == pot_upto(*state, k as int),
            forall|j: int| 0 <= j <= k ==> Chips::MIN <= #[trigger] pot_upto(*state, j) <= Chips::MAX,
        decreases state.players@.len() - k,
    {
        let this_round: Chips = match state.bet_this_round.get(&k) {
            Some(v) => *v,
            None => 0,
        };
        total = total + state.players[k].total_bet as i64 + this_round as i64;
        if total < Chips::MIN as i64 || total > Chips::MAX as i64 {
            assert(pot_upto(*state, k + 1) == total);
            return false;
        }
        k = k + 1;
    }
    true
}

/// A bot can be asked about the hand that `state` shows: the bot sits at
/// the table, the chips can be counted, and the cards are cards of which
/// hands can be made.
pub open spec fn can_answer(state: PokerViewState) -> bool {
    can_bet(state) && pot_fits(state) && can_count(state) && can_replace(state)
}

/// Whether a bot can be asked about the hand that `state` shows.
pub fn answers(state: &PokerViewState) -> (r: bool)
    ensures
        r == can_answer(*state),
{
    let seats = state.players.len();
    if state.role >= seats {
        return false;
    }
    let me = &state.players[state.role];
    if me.total_bet < 0 || me.total_bet > me.chips {
        return false;
    }
    if !pot_is_counted(state) {
        return false;
    }
    let community = state.community_cards.len();
    let use_from_hand = state.variant.use_from_hand;
    if community > CARD_TUPLE_CAPACITY || !shows_deck_cards(&state.community_cards) {
        return false;
    }
    let mut i: usize = 0;
    while i < seats
        invariant
            i <= seats,
            seats == state.players@.len(),
            state.role < seats,
            community == state.community_cards@.len(),
            use_from_hand == state.variant.use_from_hand,
            forall|k: int| 0 <= k < i ==> all_from_deck((#[trigger] state.players@[k]).hand@),
            forall|k: int|
                0 <= k < i && (k == state.role || !(#[trigger] state.players@[k]).folded) ==> {
                    &&& state.players@[k].hand@.len() <= CARD_TUPLE_CAPACITY
                    &&& 0 < cards_in_hand(state.players@[k].hand@.len(), use_from_hand as nat)
                        + community <= CARD_TUPLE_CAPACITY
                },
        decreases seats - i,
    {
        let player = &state.players[i];
        if !shows_deck_cards(&player.hand) {
            return false;
        }
        if i == state.role || !player.folded {
            let held = player.hand.len();
            if held > CARD_TUPLE_CAPACITY || !makes_a_hand(held, community, use_from_hand) {
                return false;
            }
        }
        i = i + 1;
    }
    let mine = count_visible(&me.hand);
    let open = count_visible(&state.community_cards);
    makes_a_hand(mine, open, use_from_hand)
}

/// A player that a program plays.
pub trait Bot {
    /// What the bot bets when it is asked to.
    fn bet(&self, state: &PokerViewState, call_amount: Chips, min_bet: Chips) -> BetResp
        requires
            can_answer(*state),
    ;

    /// The cards that the bot gives back when it may replace some.
    fn replace(&self, state: &PokerViewState, max_can_replace: usize) -> ReplaceResp
        requires
            can_replace(*state),
    ;
}

/// A bot that checks or calls, whatever happens.
pub struct BotAlwaysCall {}

impl BotAlwaysCall {
    pub fn new() -> BotAlwaysCall {
        BotAlwaysCall {  }
    }
}

impl Bot for BotAlwaysCall {
    fn bet(&self, state: &PokerViewState, call_amount: Chips, min_bet: Chips) -> (r: BetResp)
        ensures
            r == BetResp::Bet(least(call_amount, bettable(*state))),
    {
        check_or_call_any(state, call_amount)
    }

    fn replace(&self, state: &PokerViewState, max_can_replace: usize) -> (r: ReplaceResp)
        ensures
            positions(r@) == best_choice(
                *state,
                fewest(max_can_replace as int, held_cards(*state).len() as int),
            ).picked,
            r@.len() <= max_can_replace,
    {
        best_replace(state, max_can_replace)
    }
}

/// How far a hand of kind `kind` is worth going: all the way with four of
/// a kind or better, and else up to a part of the pot that grows with the
/// kind.
pub open spec fn kind_risk(kind: Kind) -> RiskFactor {
    risk_by_index(kind.index())
}

/// How far a hand whose kind stands at place `i` among the ten is worth
/// going.
pub open spec fn risk_by_index(i: nat) -> RiskFactor {
    if i >= 7 {
        RiskFactor::CallAny
    } else if i == 6 {
        RiskFactor::PotRatio { numer: 2, denom: 1 }
    } else if i == 5 {
        RiskFactor::PotRatio { numer: 1, denom: 1 }
    } else if i == 4 {
        RiskFactor::PotRatio { numer: 3, denom: 4 }
    } else if i == 3 {
        RiskFactor::PotRatio { numer: 1, denom: 2 }
    } else if i == 2 {
        RiskFactor::PotRatio { numer: 1, denom: 4 }
    } else if i == 1 {
        RiskFactor::PotRatio { numer: 1, denom: 8 }
    } else {
        RiskFactor::PotRatio { numer: 0, denom: 1 }
    }
}

/// How far a hand of kind `kind` is worth going.
pub fn risk_of_kind(kind: &Kind) -> (r: RiskFactor)
    ensures
        r == kind_risk(*kind),
{
    let i = kind.position();
    if i >= 7 {
        RiskFactor::CallAny
    } else if i == 6 {
        RiskFactor::PotRatio { numer: 2, denom: 1 }
    } else if i == 5 {
        RiskFactor::PotRatio { numer: 1, denom: 1 }
    } else if i == 4 {
        RiskFactor::PotRatio { numer: 3, denom: 4 }
    } else if i == 3 {
        RiskFactor::PotRatio { numer: 1, denom: 2 }
    } else if i == 2 {
        RiskFactor::PotRatio { numer: 1, denom: 4 }
    } else if i == 1 {
        RiskFactor::PotRatio { numer: 1, denom: 8 }
    } else {
        RiskFactor::PotRatio { numer: 0, denom: 1 }
    }
}

/// A bot that goes by the kind of hand that it holds.
pub struct BotEasy {}

impl BotEasy {
    pub fn new() -> BotEasy {
        BotEasy {  }
    }
}

/// The viewer holds two threes or more.
pub open spec fn holds_threes(state: PokerViewState) -> bool {
    count_threes(
        state.players@[state.role as int].hand@,
        state.players@[state.role as int].hand@.len() as int,
    ) >= 2
}

/// How far the easy bot goes: all the way with two threes, up to half the
/// pot as long as fewer than five cards are on the table, and else as far
/// as the kind of its best hand is worth.
pub open spec fn easy_risk(state: PokerViewState) -> RiskFactor {
    let hand = state.players@[state.role as int].hand@;
    let mine = visible_of(hand);
    let community = visible_of(state.community_cards@);
    if holds_threes(state) {
        RiskFactor::CallAny
    } else if hand.len() + state.community_cards@.len() < 5 || mine.len() + community.len() == 0
        || mine.len() + community.len() > CARD_TUPLE_CAPACITY {
        RiskFactor::PotRatio { numer: 1, denom: 2 }
    } else {
        risk_by_index(
            (choose|key: StrengthKey| #[trigger]
                is_best_hand(mine, community, SHOWDOWN_HAND_SIZE as nat, state.rules@, key)).kind,
        )
    }
}

impl Bot for BotEasy {
    fn bet(&self, state: &PokerViewState, call_amount: Chips, min_bet: Chips) -> (r: BetResp)
        ensures
            r == risk_answer(*state, call_amount, min_bet, easy_risk(*state)),
    {
        let hand = my_hand(state);
        proof {
            lemma_visible_of(hand@);
            lemma_visible_of(state.community_cards@);
        }
        let risk_factor = if pocket_threes(state) {
            RiskFactor::CallAny
        } else if hand.len() + state.community_cards.len() < 5 {
            RiskFactor::PotRatio { numer: 1, denom: 2 }
        } else {
            let mine = visible_cards(&hand);
            let community = visible_cards(&state.community_cards);
            if mine.len() + community.len() == 0 || mine.len() + community.len()
                > CARD_TUPLE_CAPACITY {
                RiskFactor::PotRatio { numer: 1, denom: 2 }
            } else {
                let best = best_hand(mine, community, SHOWDOWN_HAND_SIZE, &state.rules);
                proof {
                    let key = choose|key: StrengthKey| #[trigger]
                        is_best_hand(
                            mine@,
                            community@,
                            SHOWDOWN_HAND_SIZE as nat,
                            state.rules@,
                            key,
                        );
                    lemma_best_hand_unique(
                        mine@,
                        community@,
                        SHOWDOWN_HAND_SIZE as nat,
                        state.rules@,
                        best.key(),
                        key,
                    );
                }
                risk_of_kind(&best.kind)
            }
        };
        assert(risk_factor == easy_risk(*state));
        bet_risk_factor(state, call_amount, min_bet, risk_factor)
    }

    fn replace(&self, state: &PokerViewState, max_can_replace: usize) -> (r: ReplaceResp)
        ensures
            positions(r@) == best_choice(
                *state,
                fewest(max_can_replace as int, held_cards(*state).len() as int),
            ).picked,
            r@.len() <= max_can_replace,
    {
        best_replace(state, max_can_replace)
    }
}

/// A bot that goes by how often its hand wins.
pub struct BotMedium {}

impl BotMedium {
    pub fn new() -> BotMedium {
        BotMedium {  }
    }
}

/// How far the medium bot goes: all the way with two threes, and else up
/// to the part of the pot that is the part of all showdowns that its hand
/// wins.
pub open spec fn medium_risk(state: PokerViewState) -> RiskFactor {
    if holds_threes(state) {
        RiskFactor::CallAny
    } else {
        RiskFactor::PotRatio {
            numer: capped(outcomes(state, whole_deck(), true)) as u64,
            denom: capped(outcomes(state, whole_deck(), false)) as u64,
        }
    }
}

impl Bot for BotMedium {
    fn bet(&self, state: &PokerViewState, call_amount: Chips, min_bet: Chips) -> (r: BetResp)
        ensures
            r == risk_answer(*state, call_amount, min_bet, medium_risk(*state)),
    {
        let risk_factor = if pocket_threes(state) {
            RiskFactor::CallAny
        } else {
            let ratio = win_ratio(state);
            RiskFactor::PotRatio { numer: ratio.won, denom: ratio.total }
        };
        bet_risk_factor(state, call_amount, min_bet, risk_factor)
    }

    fn replace(&self, state: &PokerViewState, max_can_replace: usize) -> (r: ReplaceResp)
        ensures
            positions(r@) == best_choice(
                *state,
                fewest(max_can_replace as int, held_cards(*state).len() as int),
            ).picked,
            r@.len() <= max_can_replace,
    {
        best_replace(state, max_can_replace)
    }
}

} // verus!
