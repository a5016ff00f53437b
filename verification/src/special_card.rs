//! Cards that are wild and cards that win it all, and the hands that wild
//! cards can stand for.

use crate::bitcard::{CardTuple, CARD_TUPLE_CAPACITY};
use crate::card::{Card, Rank, Suit, NUM_RANKS, NUM_SUITS};
use crate::comb::{
    combinations_with_replacement, lemma_lex_asymmetric, lemma_walk_covers, lex_less, pick,
    valid_selection,
};
use vstd::prelude::*;
use vstd::string::StringExecFns;

verus! {

/// What a special card does for the hand that holds it.
#[derive(Copy, Hash, Clone, Ord, PartialOrd, Debug, Eq, PartialEq, Structural)]
pub enum SpecialCardType {
    Wild,
    WinsItAll,
}

/// A card that the rules of a hand single out.
#[derive(Clone, Hash, Ord, PartialOrd, Copy, Debug, Eq, PartialEq, Structural)]
pub struct SpecialCard {
    pub wtype: SpecialCardType,
    pub card: Card,
}

/// The special cards that are in force for a hand.
pub type SpecialRules = Vec<SpecialCard>;

/// The name of a group of special cards.
#[derive(Clone, Hash, Ord, PartialOrd, Debug, Eq, PartialEq)]
pub struct SpecialCardGroupDesc {
    pub name: String,
}

/// A named group of special cards that a dealer can put in force.
#[derive(Clone, Hash, Ord, PartialOrd, Debug, Eq, PartialEq)]
pub struct SpecialCardGroup {
    pub name: String,
    pub cards: Vec<SpecialCard>,
}

/// The four twos, each wild.
pub open spec fn twos_wild() -> Seq<SpecialCard> {
    Seq::new(
        NUM_SUITS as nat,
        |s: int| SpecialCard { wtype: SpecialCardType::Wild, card: Card { rank: 1, suit: Suit(s as usize) } },
    )
}

/// The king of diamonds, which wins it all.
pub open spec fn axe_man() -> Seq<SpecialCard> {
    seq![SpecialCard { wtype: SpecialCardType::WinsItAll, card: Card { rank: 12, suit: Suit(2) } }]
}

impl SpecialCardGroup {
    /// The groups that a dealer can choose from.
    pub fn all() -> (groups: Vec<SpecialCardGroup>)
        ensures
            groups@.len() == 2,
            groups@[0].name@ == "Twos Wild"@,
            groups@[0].cards@ == twos_wild(),
            groups@[1].name@ == "Man with the axe wins it all"@,
            groups@[1].cards@ == axe_man(),
    {
        let mut twos: Vec<SpecialCard> = Vec::new();
        let mut s: usize = 0;
        while s < NUM_SUITS
            invariant
                s <= NUM_SUITS,
                twos@.len() == s,
                forall|i: int| 0 <= i < s ==> #[trigger] twos@[i] == twos_wild()[i],
            decreases NUM_SUITS - s,
        {
            twos.push(SpecialCard { wtype: SpecialCardType::Wild, card: Card { rank: 1, suit: Suit(s) } });
            s = s + 1;
        }
        assert(twos@ =~= twos_wild());
        let mut axe: Vec<SpecialCard> = Vec::new();
        axe.push(
            SpecialCard { wtype: SpecialCardType::WinsItAll, card: Card { rank: 12, suit: Suit(2) } },
        );
        assert(axe@ =~= axe_man());
        let mut groups: Vec<SpecialCardGroup> = Vec::new();
        groups.push(SpecialCardGroup { name: String::from_str("Twos Wild"), cards: twos });
        groups.push(
            SpecialCardGroup { name: String::from_str("Man with the axe wins it all"), cards: axe },
        );
        groups
    }

    /// The group that `desc` names, if there is one.
    pub fn from_desc(desc: &SpecialCardGroupDesc) -> (group: Option<SpecialCardGroup>)
        ensures
            desc.name@ == "Twos Wild"@ ==> group is Some && group->Some_0.name@ == desc.name@
                && group->Some_0.cards@ == twos_wild(),
            desc.name@ != "Twos Wild"@ && desc.name@ == "Man with the axe wins it all"@ ==> group is Some
                && group->Some_0.name@ == desc.name@ && group->Some_0.cards@ == axe_man(),
            desc.name@ != "Twos Wild"@ && desc.name@ != "Man with the axe wins it all"@
                ==> group is None,
    {
        let mut groups = SpecialCardGroup::all();
        let axe = groups.pop().unwrap();
        let twos = groups.pop().unwrap();
        if twos.name == desc.name {
            Some(twos)
        } else if axe.name == desc.name {
            Some(axe)
        } else {
            None
        }
    }
}

impl SpecialCardGroupDesc {
    /// The names of the groups that a dealer can choose from.
    pub fn all() -> (descs: Vec<SpecialCardGroupDesc>)
        ensures
            descs@.len() == 2,
            descs@[0].name@ == "Twos Wild"@,
            descs@[1].name@ == "Man with the axe wins it all"@,
    {
        let mut groups = SpecialCardGroup::all();
        let axe = groups.pop().unwrap();
        let twos = groups.pop().unwrap();
        let mut descs: Vec<SpecialCardGroupDesc> = Vec::new();
        descs.push(SpecialCardGroupDesc { name: twos.name });
        descs.push(SpecialCardGroupDesc { name: axe.name });
        descs
    }
}

/// How many of `cards` are of suit `suit`.
pub open spec fn suit_tally(cards: Seq<Card>, suit: usize) -> nat
    decreases cards.len(),
{
    if cards.len() == 0 {
        0
    } else {
        suit_tally(cards.drop_last(), suit) + if cards.last().suit.0 == suit {
            1nat
        } else {
            0nat
        }
    }
}

/// The suit that most of `cards` have; of several such suits, the one
/// that got there first.
pub open spec fn leading_suit(cards: Seq<Card>) -> usize
    decreases cards.len(),
{
    if cards.len() == 0 {
        0
    } else {
        let before = leading_suit(cards.drop_last());
        let suit = cards.last().suit.0;
        if suit_tally(cards, suit) > suit_tally(cards, before) {
            suit
        } else {
            before
        }
    }
}

/// `target` lies at most `reach` steps from `rank`, up or down, on the
/// circle of the thirteen ranks.
pub open spec fn near(rank: Rank, target: int, reach: nat) -> bool
    decreases reach,
{
    ||| target == (rank + reach) % (NUM_RANKS as int)
    ||| target == (rank + NUM_RANKS - reach) % (NUM_RANKS as int)
    ||| (reach > 0 && near(rank, target, (reach - 1) as nat))
}

/// One of the cards `unwild` has rank `r` or a rank at most `reach`
/// steps from it.
pub open spec fn near_one(unwild: Seq<Card>, reach: nat, r: int) -> bool
    decreases unwild.len(),
{
    if unwild.len() == 0 {
        false
    } else {
        near_one(unwild.drop_last(), reach, r) || near(unwild.last().rank, r, reach)
    }
}

/// A wild card may stand for rank `r`: the rank of a card that is not
/// wild, or a rank at most as many steps from one as there are wild
/// cards. Where every card is wild, they stand for aces.
pub open spec fn wild_rank(unwild: Seq<Card>, num_wild: nat, r: int) -> bool {
    if unwild.len() == 0 {
        r == 0
    } else {
        near_one(unwild, num_wild, r)
    }
}

/// The cards that a wild card may stand for, of ranks below `bound`,
/// lowest first: each in the suit that leads among the cards that are not
/// wild.
pub open spec fn wild_candidates(unwild: Seq<Card>, num_wild: nat, bound: nat) -> Seq<Card>
    decreases bound,
{
    if bound == 0 {
        Seq::empty()
    } else {
        let rest = wild_candidates(unwild, num_wild, (bound - 1) as nat);
        if wild_rank(unwild, num_wild, bound - 1) {
            rest.push(Card { rank: (bound - 1) as usize, suit: Suit(leading_suit(unwild)) })
        } else {
            rest
        }
    }
}

/// `hand` is `unwild` with `num_wild` cards added that wild cards may
/// stand for.
pub open spec fn is_substitution(unwild: Seq<Card>, num_wild: nat, hand: Seq<Card>) -> bool {
    exists|sel: Seq<int>| substitutes(unwild, num_wild, sel, hand)
}

/// `hand` is `unwild` followed by the candidates at the positions `sel`.
pub open spec fn substitutes(unwild: Seq<Card>, num_wild: nat, sel: Seq<int>, hand: Seq<Card>) -> bool {
    let candidates = wild_candidates(unwild, num_wild, NUM_RANKS as nat);
    &&& sel.len() == num_wild
    &&& valid_selection(candidates.len() as int, true, sel)
    &&& hand == unwild + pick(candidates, sel)
}

/// One of `hands` holds the cards `hand`.
pub open spec fn holds_hand(hands: Seq<CardTuple>, hand: Seq<Card>) -> bool {
    exists|i: int| 0 <= i < hands.len() && (#[trigger] hands[i])@ == hand
}

proof fn lemma_leading_suit(cards: Seq<Card>)
    requires
        forall|i: int| 0 <= i < cards.len() ==> (#[trigger] cards[i]).valid(),
    ensures
        leading_suit(cards) < NUM_SUITS,
    decreases cards.len(),
{
    if cards.len() > 0 {
        lemma_leading_suit(cards.drop_last());
    }
}

proof fn lemma_suit_tally(cards: Seq<Card>, suit: usize)
    ensures
        suit_tally(cards, suit) <= cards.len(),
    decreases cards.len(),
{
    if cards.len() > 0 {
        lemma_suit_tally(cards.drop_last(), suit);
    }
}

proof fn lemma_wild_candidates(unwild: Seq<Card>, num_wild: nat, bound: nat)
    requires
        bound <= NUM_RANKS,
        leading_suit(unwild) < NUM_SUITS,
    ensures
        wild_candidates(unwild, num_wild, bound).len() <= bound,
        forall|r: int|
            0 <= r < bound && wild_rank(unwild, num_wild, r) ==> wild_candidates(
                unwild,
                num_wild,
                bound,
            ).len() > 0,
        forall|i: int|
            0 <= i < wild_candidates(unwild, num_wild, bound).len() ==> (#[trigger] wild_candidates(
                unwild,
                num_wild,
                bound,
            )[i]).in_deck(),
        forall|i: int, j: int|
            0 <= i < j < wild_candidates(unwild, num_wild, bound).len() ==> (#[trigger] wild_candidates(
                unwild,
                num_wild,
                bound,
            )[i]).rank < (#[trigger] wild_candidates(unwild, num_wild, bound)[j]).rank < bound,
        forall|i: int|
            0 <= i < wild_candidates(unwild, num_wild, bound).len() ==> (#[trigger] wild_candidates(
                unwild,
                num_wild,
                bound,
            )[i]).rank < bound,
    decreases bound,
{
    if bound > 0 {
        lemma_wild_candidates(unwild, num_wild, (bound - 1) as nat);
    }
}

/// A rank is near itself, however far the reach.
proof fn lemma_near_itself(rank: Rank, reach: nat)
    ensures
        near(rank, (rank % NUM_RANKS) as int, reach),
    decreases reach,
{
    if reach > 0 {
        lemma_near_itself(rank, (reach - 1) as nat);
    }
}

/// Wild cards can always stand for something.
proof fn lemma_some_wild_rank(unwild: Seq<Card>, num_wild: nat)
    ensures
        exists|r: int| 0 <= r < NUM_RANKS && wild_rank(unwild, num_wild, r),
{
    if unwild.len() == 0 {
        assert(wild_rank(unwild, num_wild, 0));
    } else {
        let rank = unwild.last().rank;
        lemma_near_itself(rank, num_wild);
        assert(wild_rank(unwild, num_wild, (rank % NUM_RANKS) as int));
    }
}

/// The cards that wild cards may stand for in a hand: see `wild_candidates`.
fn candidate_cards(unwild: CardTuple, num_wild: usize) -> (cards: Vec<Card>)
    requires
        num_wild <= CARD_TUPLE_CAPACITY,
    ensures
        cards@ == wild_candidates(unwild@, num_wild as nat, NUM_RANKS as nat),
        cards@.len() > 0,
        forall|i: int| 0 <= i < cards@.len() ==> (#[trigger] cards@[i]).in_deck(),
        all_differ(cards@),
{
    let n = unwild.len();
    let mut good: Vec<bool> = Vec::new();
    let mut r: usize = 0;
    while r < NUM_RANKS
        invariant
            r <= NUM_RANKS,
            good@.len() == r,
            forall|x: int| 0 <= x < r ==> good@[x] == (n == 0 && x == 0),
        decreases NUM_RANKS - r,
    {
        good.push(n == 0 && r == 0);
        r = r + 1;
    }
    let mut suit_counts: Vec<usize> = Vec::new();
    let mut s: usize = 0;
    while s < NUM_SUITS
        invariant
            s <= NUM_SUITS,
            suit_counts@.len() == s,
            forall|x: int| 0 <= x < s ==> suit_counts@[x] == 0,
        decreases NUM_SUITS - s,
    {
        suit_counts.push(0);
        s = s + 1;
    }
    let mut max_suit: usize = 0;
    let mut i: usize = 0;
    assert(unwild@.take(0) =~= Seq::<Card>::empty());
    while i < n
        invariant
            i <= n,
            n == unwild@.len(),
            num_wild <= CARD_TUPLE_CAPACITY,
            good@.len() == NUM_RANKS,
            suit_counts@.len() == NUM_SUITS,
            max_suit < NUM_SUITS,
            max_suit == leading_suit(unwild@.take(i as int)),
            forall|x: int|
                0 <= x < NUM_SUITS ==> #[trigger] suit_counts@[x] == suit_tally(
                    unwild@.take(i as int),
                    x as usize,
                ),
            forall|x: int|
                0 <= x < NUM_RANKS ==> #[trigger] good@[x] == (if n == 0 {
                    x == 0
                } else {
                    near_one(unwild@.take(i as int), num_wild as nat, x)
                }),
        decreases n - i,
    {
        let card = unwild.get(i);
        let ghost seen = unwild@.take(i as int);
        let ghost now = unwild@.take(i + 1);
        proof {
            assert(now.drop_last() =~= seen);
            assert(now.last() == card);
            lemma_suit_tally(seen, card.suit.0);
        }
        let suit = card.suit.0;
        let c = suit_counts[suit];
        suit_counts.set(suit, c + 1);
        if suit_counts[suit] > suit_counts[max_suit] {
            max_suit = suit;
        }
        let rank = card.rank;
        let mut offset: usize = 0;
        while offset <= num_wild
            invariant
                offset <= num_wild + 1,
                num_wild <= CARD_TUPLE_CAPACITY,
                rank <= NUM_RANKS,
                good@.len() == NUM_RANKS,
                forall|x: int|
                    0 <= x < NUM_RANKS ==> #[trigger] good@[x] == (near_one(seen, num_wild as nat, x)
                        || (offset > 0 && near(rank, x, (offset - 1) as nat))),
            decreases num_wild + 1 - offset,
        {
            let up = (rank + offset) % NUM_RANKS;
            let down = (rank + NUM_RANKS - offset) % NUM_RANKS;
            good.set(up, true);
            good.set(down, true);
            offset = offset + 1;
        }
        i = i + 1;
    }
    assert(unwild@.take(n as int) =~= unwild@);
    let mut cards: Vec<Card> = Vec::new();
    let mut rank: usize = 0;
    while rank < NUM_RANKS
        invariant
            rank <= NUM_RANKS,
            good@.len() == NUM_RANKS,
            max_suit == leading_suit(unwild@),
            forall|x: int|
                0 <= x < NUM_RANKS ==> #[trigger] good@[x] == wild_rank(unwild@, num_wild as nat, x),
            cards@ == wild_candidates(unwild@, num_wild as nat, rank as nat),
        decreases NUM_RANKS - rank,
    {
        if good[rank] {
            cards.push(Card { rank, suit: Suit(max_suit) });
        }
        rank = rank + 1;
    }
    proof {
        lemma_wild_candidates(unwild@, num_wild as nat, NUM_RANKS as nat);
        lemma_some_wild_rank(unwild@, num_wild as nat);
    }
    cards
}

/// `hand` is `base` followed by `k` of the cards `choices`, the same card
/// any number of times, in the order of `choices`.
pub open spec fn extends(base: Seq<Card>, choices: Seq<Card>, k: nat, sel: Seq<int>, hand: Seq<Card>) -> bool {
    &&& sel.len() == k
    &&& valid_selection(choices.len() as int, true, sel)
    &&& hand == base + pick(choices, sel)
}

/// `hand` is `base` with `k` of the cards `choices` added.
pub open spec fn is_extension(base: Seq<Card>, choices: Seq<Card>, k: nat, hand: Seq<Card>) -> bool {
    exists|sel: Seq<int>| extends(base, choices, k, sel, hand)
}

/// Cards that are picked by the generator are the cards themselves.
pub proof fn lemma_picked_cards(src: Seq<Card>, sel: Seq<int>, items: Seq<Card>)
    requires
        crate::comb::picked(src, sel, items),
    ensures
        items == pick(src, sel),
{
    assert(items =~= pick(src, sel));
}

/// No card stands twice among `cards`.
pub open spec fn all_differ(cards: Seq<Card>) -> bool {
    forall|a: int, b: int| 0 <= a < b < cards.len() ==> cards[a] != cards[b]
}

/// No hand stands twice among `hands`.
pub open spec fn no_hand_twice(hands: Seq<CardTuple>) -> bool {
    forall|i: int, j: int|
        0 <= i < j < hands.len() ==> (#[trigger] hands[i])@ != (#[trigger] hands[j])@
}

/// Of cards that all differ, different selections make different hands.
proof fn lemma_picks_differ(base: Seq<Card>, choices: Seq<Card>, a: Seq<int>, b: Seq<int>)
    requires
        all_differ(choices),
        a.len() == b.len(),
        valid_selection(choices.len() as int, true, a),
        valid_selection(choices.len() as int, true, b),
        lex_less(a, b),
    ensures
        base + pick(choices, a) != base + pick(choices, b),
{
    let k = choose|k: int| crate::comb::differ_at(a, b, k);
    let x = base + pick(choices, a);
    let y = base + pick(choices, b);
    assert(0 <= a[k] < choices.len());
    assert(0 <= b[k] < choices.len());
    assert(x[base.len() + k] == choices[a[k]]);
    assert(y[base.len() + k] == choices[b[k]]);
}

/// Every hand that `base` makes with `k` of the cards `choices` added,
/// where a card may be added more than once and the order in which cards
/// are added does not count. Where the cards `choices` all differ, each
/// hand is there once.
pub fn all_extensions(base: CardTuple, choices: Vec<Card>, k: usize) -> (hands: Vec<CardTuple>)
    requires
        base@.len() + k <= CARD_TUPLE_CAPACITY,
        choices@.len() > 0,
        forall|i: int| 0 <= i < choices@.len() ==> (#[trigger] choices@[i]).valid(),
    ensures
        hands@.len() > 0,
        forall|i: int|
            0 <= i < hands@.len() ==> is_extension(base@, choices@, k as nat, (#[trigger] hands@[i])@),
        forall|hand: Seq<Card>|
            is_extension(base@, choices@, k as nat, hand) ==> #[trigger] holds_hand(hands@, hand),
        all_differ(choices@) ==> no_hand_twice(hands@),
{
    let mut retval: Vec<CardTuple> = Vec::new();
    let ghost mut done: Seq<Seq<int>> = Seq::empty();
    let ghost candidates = choices@;
    let ghost n = candidates.len() as int;
    let ghost p = k as nat;
    let mut combos = combinations_with_replacement(choices, k);
    proof {
        combos.lemma_pending();
        let zeros = Seq::new(p, |i: int| 0int);
        assert(zeros.len() == p && valid_selection(n, true, zeros));
        assert(combos.pending() is Some);
        assert forall|u: Seq<int>|
            u.len() == p && valid_selection(n, true, u) && (combos.pending() matches Some(t)
                && lex_less(u, t)) implies holds_hand(retval@, base@ + pick(candidates, u)) by {
            let t = combos.pending()->Some_0;
            lemma_lex_asymmetric(u, t);
        }
    }
    loop
        invariant
            combos.wf(),
            combos.source() == candidates,
            combos.size() == p,
            combos.with_replacement(),
            p == k,
            n == candidates.len(),
            candidates == choices@,
            base@.len() + k <= CARD_TUPLE_CAPACITY,
            forall|i: int| 0 <= i < candidates.len() ==> (#[trigger] candidates[i]).valid(),
            combos.pending() is Some || retval@.len() > 0,
            done.len() == retval@.len(),
            forall|i: int|
                0 <= i < done.len() ==> {
                    &&& (#[trigger] done[i]).len() == p
                    &&& valid_selection(n, true, done[i])
                    &&& retval@[i]@ == base@ + pick(candidates, done[i])
                    &&& combos.pending() matches Some(t) ==> lex_less(done[i], t)
                },
            forall|i: int, j: int|
                0 <= i < j < done.len() ==> lex_less(#[trigger] done[i], #[trigger] done[j]),
            forall|i: int|
                0 <= i < retval@.len() ==> is_extension(base@, candidates, p, (#[trigger] retval@[i])@),
            forall|u: Seq<int>|
                u.len() == p && #[trigger] valid_selection(n, true, u) && (combos.pending() matches Some(
                    t,
                ) ==> lex_less(u, t)) ==> holds_hand(retval@, base@ + pick(candidates, u)),
        decreases combos.remaining(),
    {
        proof {
            combos.lemma_pending();
        }
        let ghost pending = combos.pending();
        let ghost before = retval@;
        match combos.next() {
            None => {
                proof {
                    assert forall|hand: Seq<Card>| is_extension(base@, candidates, p, hand) implies #[trigger] holds_hand(
                        retval@,
                        hand,
                    ) by {
                        let sel = choose|sel: Seq<int>| extends(base@, candidates, p, sel, hand);
                        assert(valid_selection(n, true, sel));
                    }
                    if all_differ(candidates) {
                        assert forall|i: int, j: int| 0 <= i < j < retval@.len() implies (
                        #[trigger] retval@[i])@ != (#[trigger] retval@[j])@ by {
                            assert(lex_less(done[i], done[j]));
                            lemma_picks_differ(base@, candidates, done[i], done[j]);
                        }
                    }
                }
                return retval;
            },
            Some(comb) => {
                let ghost sel = pending->Some_0;
                proof {
                    lemma_picked_cards(candidates, sel, comb@);
                }
                let mut result = base;
                let mut j: usize = 0;
                while j < comb.len()
                    invariant
                        j <= comb@.len(),
                        comb@.len() == k,
                        base@.len() + k <= CARD_TUPLE_CAPACITY,
                        comb@ == pick(candidates, sel),
                        valid_selection(n, true, sel),
                        n == candidates.len(),
                        forall|i: int| 0 <= i < candidates.len() ==> (#[trigger] candidates[i]).valid(),
                        result@ == base@ + comb@.take(j as int),
                    decreases comb@.len() - j,
                {
                    let card = comb[j];
                    proof {
                        assert(0 <= sel[j as int] < n);
                        assert(card == candidates[sel[j as int]]);
                        assert(card.valid());
                    }
                    result.push(card);
                    proof {
                        assert(comb@.take(j + 1) =~= comb@.take(j as int).push(card));
                        assert(result@ =~= base@ + comb@.take(j + 1));
                    }
                    j = j + 1;
                }
                proof {
                    assert(comb@.take(comb@.len() as int) =~= comb@);
                    assert(extends(base@, candidates, p, sel, result@));
                }
                retval.push(result);
                proof {
                    let next = combos.pending();
                    let earlier = done;
                    done = done.push(sel);
                    assert forall|i: int| 0 <= i < done.len() implies {
                        &&& (#[trigger] done[i]).len() == p
                        &&& valid_selection(n, true, done[i])
                        &&& retval@[i]@ == base@ + pick(candidates, done[i])
                        &&& next matches Some(t) ==> lex_less(done[i], t)
                    } by {
                        if i < earlier.len() {
                            assert(done[i] == earlier[i]);
                            assert(retval@[i] == before[i]);
                            assert(lex_less(earlier[i], sel));
                            if next is Some {
                                crate::comb::lemma_lex_transitive(done[i], sel, next->Some_0);
                            }
                        }
                    }
                    assert forall|i: int, j: int| 0 <= i < j < done.len() implies lex_less(
                        #[trigger] done[i],
                        #[trigger] done[j],
                    ) by {
                        if j < earlier.len() {
                            assert(done[i] == earlier[i] && done[j] == earlier[j]);
                        } else {
                            assert(done[i] == earlier[i]);
                            assert(lex_less(earlier[i], sel));
                        }
                    }
                    assert forall|i: int| 0 <= i < retval@.len() implies is_extension(
                        base@,
                        candidates,
                        p,
                        (#[trigger] retval@[i])@,
                    ) by {
                        if i < before.len() {
                            assert(retval@[i] == before[i]);
                        }
                    }
                    assert forall|u: Seq<int>|
                        u.len() == p && #[trigger] valid_selection(n, true, u) && (next matches Some(t)
                            ==> lex_less(u, t)) implies holds_hand(
                        retval@,
                        base@ + pick(candidates, u),
                    ) by {
                        lemma_walk_covers(n, true, sel, next, u);
                        if u == sel {
                            assert(retval@[before.len() as int]@ == base@ + pick(candidates, u));
                        } else {
                            assert(holds_hand(before, base@ + pick(candidates, u)));
                            let i = choose|i: int|
                                0 <= i < before.len() && (#[trigger] before[i])@ == base@ + pick(
                                    candidates,
                                    u,
                                );
                            assert(retval@[i] == before[i]);
                        }
                    }
                }
            },
        }
    }
}

/// Every hand that `unwild` makes when `num_wild` wild cards are put to
/// use, each hand once: each wild card stands for a card near the cards
/// that are not wild, in the suit that leads among them.
pub fn wild_combinations(unwild: CardTuple, num_wild: usize) -> (hands: Vec<CardTuple>)
    requires
        unwild@.len() + num_wild <= CARD_TUPLE_CAPACITY,
    ensures
        hands@.len() > 0,
        num_wild == 0 ==> hands@.len() == 1 && hands@[0]@ == unwild@,
        forall|i: int|
            0 <= i < hands@.len() ==> is_substitution(unwild@, num_wild as nat, (#[trigger] hands@[i])@),
        forall|hand: Seq<Card>|
            is_substitution(unwild@, num_wild as nat, hand) ==> #[trigger] holds_hand(hands@, hand),
        no_hand_twice(hands@),
{
    if num_wild == 0 {
        let mut retval: Vec<CardTuple> = Vec::new();
        retval.push(unwild);
        proof {
            let candidates = wild_candidates(unwild@, 0, NUM_RANKS as nat);
            let none = Seq::<int>::empty();
            assert(unwild@ =~= unwild@ + pick(candidates, none));
            assert(substitutes(unwild@, 0, none, unwild@));
            assert forall|hand: Seq<Card>| is_substitution(unwild@, 0, hand) implies #[trigger] holds_hand(
                retval@,
                hand,
            ) by {
                let sel = choose|sel: Seq<int>| substitutes(unwild@, 0, sel, hand);
                assert(sel =~= none);
                assert(retval@[0]@ == hand);
            }
        }
        return retval;
    }
    let cards = candidate_cards(unwild, num_wild);
    let ghost candidates = cards@;
    let hands = all_extensions(unwild, cards, num_wild);
    proof {
        assert forall|i: int| 0 <= i < hands@.len() implies is_substitution(
            unwild@,
            num_wild as nat,
            (#[trigger] hands@[i])@,
        ) by {
            let sel = choose|sel: Seq<int>|
                extends(unwild@, candidates, num_wild as nat, sel, hands@[i]@);
            assert(substitutes(unwild@, num_wild as nat, sel, hands@[i]@));
        }
        assert forall|hand: Seq<Card>| is_substitution(unwild@, num_wild as nat, hand) implies #[trigger] holds_hand(
            hands@,
            hand,
        ) by {
            let sel = choose|sel: Seq<int>| substitutes(unwild@, num_wild as nat, sel, hand);
            assert(extends(unwild@, candidates, num_wild as nat, sel, hand));
            assert(is_extension(unwild@, candidates, num_wild as nat, hand));
        }
    }
    hands
}

} // verus!
