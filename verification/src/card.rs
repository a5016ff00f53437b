//! Cards, the kinds of hands, and the deck.

use crate::bitcard::{card_at, RankTuple, DECK_SIZE};
use rand::rngs::ThreadRng;
use rand::seq::SliceRandom;
use vstd::prelude::*;
use vstd::std_specs::convert::FromSpecImpl;
use vstd::string::StringExecFns;

verus! {

/// Number of distinct ranks in a suit. Rank `0` is the ace, rank `12` the king.
pub const NUM_RANKS: usize = 13;

/// Number of suits in a deck.
pub const NUM_SUITS: usize = 4;

/// A suit, numbered `0..NUM_SUITS`.
#[derive(Debug, Clone, Copy, PartialEq, Eq, Structural, PartialOrd, Ord, Hash)]
pub struct Suit(pub usize);

/// A rank. `0..NUM_RANKS` are the ranks printed on the cards; `NUM_RANKS`
/// itself stands for an ace that is played high.
pub type Rank = usize;

/// A playing card.
#[derive(Debug, Clone, Copy, PartialEq, Eq, Structural, PartialOrd, Ord, Hash)]
pub struct Card {
    pub suit: Suit,
    pub rank: Rank,
}

impl Card {
    /// A card that a tuple of cards can hold: a real suit, and a rank that
    /// is either printed on a card or the high ace.
    pub open spec fn valid(self) -> bool {
        self.suit.0 < NUM_SUITS && self.rank <= NUM_RANKS
    }

    /// A card as it comes out of a deck: the ace is rank `0`.
    pub open spec fn in_deck(self) -> bool {
        self.suit.0 < NUM_SUITS && self.rank < NUM_RANKS
    }

    /// Position of a deck card among the 52, suit by suit.
    pub open spec fn index(self) -> int {
        self.suit.0 * NUM_RANKS + self.rank
    }
}


impl From<(usize, usize)> for Card {
    /// The card of a rank and a suit, given in this order.
    fn from(t: (usize, usize)) -> (c: Card) {
        Card { rank: t.0, suit: Suit(t.1) }
    }
}

impl FromSpecImpl<(usize, usize)> for Card {
    open spec fn obeys_from_spec() -> bool {
        true
    }

    open spec fn from_spec(t: (usize, usize)) -> Card {
        Card { rank: t.0, suit: Suit(t.1) }
    }
}

/// The rank that a strength is named after.
pub type StrengthRank = usize;

/// What kind of hand a selection of cards makes, weakest first.
#[derive(Debug, Clone, Copy, Eq, PartialEq, Structural, Hash)]
pub enum Kind {
    HighCard(StrengthRank),
    Pair(StrengthRank),
    TwoPair { high: StrengthRank, low: StrengthRank },
    ThreeKind(StrengthRank),
    Straight(StrengthRank),
    Flush(RankTuple),
    FullHouse { high: StrengthRank, low: StrengthRank },
    FourKind(StrengthRank),
    StraightFlush(StrengthRank),
    WinsItAll,
}

impl Kind {
    /// Where a kind stands among the ten: `0` for the weakest.
    pub open spec fn index(self) -> nat {
        match self {
            Kind::HighCard(_) => 0,
            Kind::Pair(_) => 1,
            Kind::TwoPair { .. } => 2,
            Kind::ThreeKind(_) => 3,
            Kind::Straight(_) => 4,
            Kind::Flush(_) => 5,
            Kind::FullHouse { .. } => 6,
            Kind::FourKind(_) => 7,
            Kind::StraightFlush(_) => 8,
            Kind::WinsItAll => 9,
        }
    }

    /// The ranks that a kind is named after, the one that counts most first.
    pub open spec fn ranks(self) -> Seq<Rank> {
        match self {
            Kind::HighCard(r) => seq![r],
            Kind::Pair(r) => seq![r],
            Kind::TwoPair { high, low } => seq![high, low],
            Kind::ThreeKind(r) => seq![r],
            Kind::Straight(r) => seq![r],
            Kind::Flush(ranks) => ranks@,
            Kind::FullHouse { high, low } => seq![high, low],
            Kind::FourKind(r) => seq![r],
            Kind::StraightFlush(r) => seq![r],
            Kind::WinsItAll => Seq::empty(),
        }
    }

    /// Where this kind stands among the ten: `0` for the weakest.
    pub fn position(&self) -> (i: u8)
        ensures
            i == self.index(),
    {
        match self {
            Kind::HighCard(_) => 0,
            Kind::Pair(_) => 1,
            Kind::TwoPair { .. } => 2,
            Kind::ThreeKind(_) => 3,
            Kind::Straight(_) => 4,
            Kind::Flush(_) => 5,
            Kind::FullHouse { .. } => 6,
            Kind::FourKind(_) => 7,
            Kind::StraightFlush(_) => 8,
            Kind::WinsItAll => 9,
        }
    }
}

/// The ten kinds stand in the order of the game: a high card is the
/// weakest hand, and nothing beats the card that wins it all.
pub proof fn lemma_kind_order(r: StrengthRank, high: StrengthRank, low: StrengthRank, t: RankTuple)
    ensures
        Kind::HighCard(r).index() < Kind::Pair(r).index(),
        Kind::Pair(r).index() < (Kind::TwoPair { high, low }).index(),
        (Kind::TwoPair { high, low }).index() < Kind::ThreeKind(r).index(),
        Kind::ThreeKind(r).index() < Kind::Straight(r).index(),
        Kind::Straight(r).index() < Kind::Flush(t).index(),
        Kind::Flush(t).index() < (Kind::FullHouse { high, low }).index(),
        (Kind::FullHouse { high, low }).index() < Kind::FourKind(r).index(),
        Kind::FourKind(r).index() < Kind::StraightFlush(r).index(),
        Kind::StraightFlush(r).index() < Kind::WinsItAll.index(),
{
}

/// Why a round could not go on.
pub type PokerRoundError = String;

/// A deck that is dealt from its end.
#[derive(Debug, Clone, PartialEq, Eq)]
pub struct VecDeck {
    pub raw: Vec<Card>,
}

/// The random number generator that `rand` keeps for each thread.
#[verifier::external_type_specification]
#[verifier::external_body]
pub struct ExThreadRng(ThreadRng);

/// `rand::thread_rng` hands out the generator of the calling thread. Nothing
/// is claimed of it.
pub assume_specification[ rand::thread_rng ]() -> (rng: ThreadRng)
;

/// `SliceRandom::shuffle` of `rand` swaps entries of the slice among
/// themselves: what comes back holds the same cards, each as often as
/// before, in an order that nothing is claimed of.
#[verifier::external_body]
fn shuffle_cards(cards: &mut Vec<Card>, rng: &mut ThreadRng)
    ensures
        final(cards)@.to_multiset() == old(cards)@.to_multiset(),
{
    cards.shuffle(rng);
}

impl VecDeck {
    /// Takes the last card off the deck.
    pub fn draw(&mut self) -> (r: Result<Card, PokerRoundError>)
        ensures
            old(self).raw@.len() == 0 ==> r is Err && r->Err_0@ == "Ran out of cards in deck"@
                && final(self).raw@ == old(self).raw@,
            old(self).raw@.len() > 0 ==> r == Ok::<Card, PokerRoundError>(old(self).raw@.last())
                && final(self).raw@ == old(self).raw@.drop_last(),
    {
        match self.raw.pop() {
            Some(card) => Ok(card),
            None => Err(String::from_str("Ran out of cards in deck")),
        }
    }

    /// Puts the cards into a random order.
    pub fn shuffle(&mut self, rng: &mut ThreadRng)
        ensures
            final(self).raw@.to_multiset() == old(self).raw@.to_multiset(),
            final(self).raw@.len() == old(self).raw@.len(),
    {
        let ghost before = self.raw@;
        shuffle_cards(&mut self.raw, rng);
        proof {
            before.to_multiset_ensures();
            self.raw@.to_multiset_ensures();
        }
    }
}

/// The 52 cards, suit by suit, and by rank within a suit.
pub fn standard_deck() -> (deck: VecDeck)
    ensures
        deck.raw@.len() == DECK_SIZE,
        forall|i: int| 0 <= i < DECK_SIZE ==> #[trigger] deck.raw@[i] == card_at(i),
{
    let mut raw: Vec<Card> = Vec::new();
    let mut suit: usize = 0;
    while suit < NUM_SUITS
        invariant
            suit <= NUM_SUITS,
            raw@.len() == suit * NUM_RANKS,
            forall|i: int| 0 <= i < raw@.len() ==> #[trigger] raw@[i] == card_at(i),
        decreases NUM_SUITS - suit,
    {
        let mut rank: usize = 0;
        while rank < NUM_RANKS
            invariant
                suit < NUM_SUITS,
                rank <= NUM_RANKS,
                raw@.len() == suit * NUM_RANKS + rank,
                forall|i: int| 0 <= i < raw@.len() ==> #[trigger] raw@[i] == card_at(i),
            decreases NUM_RANKS - rank,
        {
            raw.push(Card { rank, suit: Suit(suit) });
            rank = rank + 1;
        }
        suit = suit + 1;
    }
    VecDeck { raw }
}

/// A full deck in a random order.
pub fn shuffled_deck() -> (deck: VecDeck)
    ensures
        deck.raw@.len() == DECK_SIZE,
        forall|i: int|
            0 <= i < DECK_SIZE ==> deck.raw@.to_multiset().count(#[trigger] card_at(i)) == 1,
        forall|i: int| 0 <= i < deck.raw@.len() ==> (#[trigger] deck.raw@[i]).in_deck(),
{
    let mut deck = standard_deck();
    let ghost sorted = deck.raw@;
    let mut rng = rand::thread_rng();
    deck.shuffle(&mut rng);
    proof {
        lemma_deck_counts(sorted);
        assert forall|i: int| 0 <= i < deck.raw@.len() implies (#[trigger] deck.raw@[i]).in_deck() by {
            let c = deck.raw@[i];
            deck.raw@.to_multiset_ensures();
            assert(deck.raw@.contains(c));
            assert(sorted.to_multiset().count(c) > 0);
            sorted.to_multiset_ensures();
            assert(sorted.contains(c));
            let k = choose|k: int| 0 <= k < sorted.len() && sorted[k] == c;
            assert(sorted[k] == card_at(k));
        }
    }
    deck
}

/// Each card is once in the deck.
proof fn lemma_deck_counts(deck: Seq<Card>)
    requires
        deck.len() == DECK_SIZE,
        forall|i: int| 0 <= i < DECK_SIZE ==> #[trigger] deck[i] == card_at(i),
    ensures
        forall|i: int| 0 <= i < DECK_SIZE ==> deck.to_multiset().count(#[trigger] card_at(i)) == 1,
{
    assert forall|i: int, j: int| 0 <= i < j < deck.len() implies deck[i] != deck[j] by {
        assert(deck[i] == card_at(i));
        assert(deck[j] == card_at(j));
        assert(card_at(i).index() == i);
        assert(card_at(j).index() == j);
    }
    assert(deck.no_duplicates());
    deck.lemma_multiset_has_no_duplicates();
    assert forall|i: int| 0 <= i < DECK_SIZE implies deck.to_multiset().count(
        #[trigger] card_at(i),
    ) == 1 by {
        deck.to_multiset_ensures();
        assert(deck[i] == card_at(i));
        assert(deck.contains(card_at(i)));
    }
}

} // verus!
