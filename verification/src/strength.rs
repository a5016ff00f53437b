//! The strength of a hand: its kind and its kickers, the order of
//! strengths, and the best hand that cards can make.

use crate::bitcard::{lemma_sorted_ranks, sorted_ranks, CardTuple, RankTuple, CARD_TUPLE_CAPACITY};
use crate::card::{Card, Kind, Rank, NUM_RANKS, NUM_SUITS};
use crate::comb::{
    combinations, lemma_lex_asymmetric, lemma_walk_covers, lex_less, pick, valid_selection,
};
use crate::special_card::{
    holds_hand, is_substitution, substitutes, wild_combinations, SpecialCard, SpecialCardType,
    SpecialRules,
};
use vstd::pervasive::unreached;
use vstd::prelude::*;

verus! {

/// What decides between two hands: the kind, then the ranks the kind is
/// named after, then the kickers, each highest first.
pub struct StrengthKey {
    pub kind: nat,
    pub primary: Seq<Rank>,
    pub kickers: Seq<Rank>,
}

/// Dictionary order of two rank sequences: negative when `a` comes first,
/// zero when they are the same, positive when `b` comes first.
pub open spec fn seq_order(a: Seq<Rank>, b: Seq<Rank>) -> int
    decreases a.len(),
{
    if a.len() == 0 {
        if b.len() == 0 {
            0
        } else {
            -1
        }
    } else if b.len() == 0 {
        1
    } else if a[0] < b[0] {
        -1
    } else if a[0] > b[0] {
        1
    } else {
        seq_order(a.drop_first(), b.drop_first())
    }
}

/// Order of two strengths: negative when `a` is weaker, zero when they tie,
/// positive when `a` is stronger.
pub open spec fn key_order(a: StrengthKey, b: StrengthKey) -> int {
    if a.kind < b.kind {
        -1
    } else if a.kind > b.kind {
        1
    } else if seq_order(a.primary, b.primary) != 0 {
        seq_order(a.primary, b.primary)
    } else {
        seq_order(a.kickers, b.kickers)
    }
}

/// Two rank sequences tie exactly when they are the same.
pub proof fn lemma_seq_order_zero(a: Seq<Rank>, b: Seq<Rank>)
    ensures
        seq_order(a, b) == 0 <==> a == b,
        -1 <= seq_order(a, b) <= 1,
    decreases a.len(),
{
    if a.len() == 0 || b.len() == 0 {
        if a.len() == 0 && b.len() == 0 {
            assert(a =~= b);
        }
    } else {
        lemma_seq_order_zero(a.drop_first(), b.drop_first());
        if a[0] == b[0] && a.drop_first() == b.drop_first() {
            assert(a =~= seq![a[0]] + a.drop_first());
            assert(b =~= seq![b[0]] + b.drop_first());
        }
    }
}

/// Swapping the sides turns the order round.
pub proof fn lemma_seq_order_swap(a: Seq<Rank>, b: Seq<Rank>)
    ensures
        seq_order(b, a) == -seq_order(a, b),
    decreases a.len(),
{
    if a.len() > 0 && b.len() > 0 {
        lemma_seq_order_swap(a.drop_first(), b.drop_first());
    }
}

/// The order of rank sequences is transitive.
pub proof fn lemma_seq_order_chain(a: Seq<Rank>, b: Seq<Rank>, c: Seq<Rank>)
    requires
        seq_order(a, b) <= 0,
        seq_order(b, c) <= 0,
    ensures
        seq_order(a, c) <= 0,
        seq_order(a, b) < 0 || seq_order(b, c) < 0 ==> seq_order(a, c) < 0,
    decreases a.len(),
{
    if a.len() > 0 && b.len() > 0 && c.len() > 0 {
        if a[0] == b[0] && b[0] == c[0] {
            lemma_seq_order_chain(a.drop_first(), b.drop_first(), c.drop_first());
        }
    }
}

/// The order of strengths is a total order: two strengths tie only when
/// they are the same, swapping the sides turns the order round, and the
/// order is transitive.
pub proof fn lemma_key_order_total(a: StrengthKey, b: StrengthKey, c: StrengthKey)
    ensures
        key_order(a, b) == 0 <==> a == b,
        key_order(b, a) == -key_order(a, b),
        key_order(a, b) <= 0 && key_order(b, c) <= 0 ==> key_order(a, c) <= 0,
        a.kind < b.kind ==> key_order(a, b) < 0,
{
    lemma_seq_order_zero(a.primary, b.primary);
    lemma_seq_order_zero(a.kickers, b.kickers);
    lemma_seq_order_zero(b.primary, c.primary);
    lemma_seq_order_zero(b.kickers, c.kickers);
    lemma_seq_order_zero(a.primary, c.primary);
    lemma_seq_order_zero(a.kickers, c.kickers);
    lemma_seq_order_swap(a.primary, b.primary);
    lemma_seq_order_swap(a.kickers, b.kickers);
    if key_order(a, b) <= 0 && key_order(b, c) <= 0 {
        if a.kind == b.kind && b.kind == c.kind {
            lemma_seq_order_chain(a.primary, b.primary, c.primary);
            if a.primary == b.primary && b.primary == c.primary {
                lemma_seq_order_chain(a.kickers, b.kickers, c.kickers);
            }
        }
    }
}

proof fn lemma_order_single(x: Rank, y: Rank)
    ensures
        seq_order(seq![x], seq![y]) == if x < y {
            -1int
        } else if x > y {
            1int
        } else {
            0int
        },
{
    assert(seq![x].drop_first() =~= Seq::<Rank>::empty());
    assert(seq![y].drop_first() =~= Seq::<Rank>::empty());
    assert(seq_order(Seq::<Rank>::empty(), Seq::<Rank>::empty()) == 0);
}

proof fn lemma_order_double(xh: Rank, xl: Rank, yh: Rank, yl: Rank)
    ensures
        seq_order(seq![xh, xl], seq![yh, yl]) == if xh < yh {
            -1int
        } else if xh > yh {
            1int
        } else if xl < yl {
            -1int
        } else if xl > yl {
            1int
        } else {
            0int
        },
{
    assert(seq![xh, xl].drop_first() =~= seq![xl]);
    assert(seq![yh, yl].drop_first() =~= seq![yl]);
    lemma_order_single(xl, yl);
}

/// Order of two ranks, as `seq_order` has it.
fn order_rank(x: Rank, y: Rank) -> (r: i8)
    ensures
        r == seq_order(seq![x], seq![y]),
{
    proof {
        lemma_order_single(x, y);
    }
    if x < y {
        -1
    } else if x > y {
        1
    } else {
        0
    }
}

/// Dictionary order of the ranks of two tuples.
pub fn order_ranks(a: &RankTuple, b: &RankTuple) -> (r: i8)
    ensures
        r == seq_order(a@, b@),
{
    let n = a.len();
    let m = b.len();
    let mut i: usize = 0;
    assert(a@.skip(0) =~= a@);
    assert(b@.skip(0) =~= b@);
    loop
        invariant
            i <= n,
            i <= m,
            n == a@.len(),
            m == b@.len(),
            seq_order(a@, b@) == seq_order(a@.skip(i as int), b@.skip(i as int)),
        decreases n - i,
    {
        if i == n {
            return if i == m {
                0
            } else {
                -1
            };
        }
        if i == m {
            return 1;
        }
        let x = a.get(i);
        let y = b.get(i);
        if x < y {
            return -1;
        }
        if x > y {
            return 1;
        }
        proof {
            assert(a@.skip(i as int).drop_first() =~= a@.skip(i + 1));
            assert(b@.skip(i as int).drop_first() =~= b@.skip(i + 1));
        }
        i = i + 1;
    }
}

/// Order of two kinds: by their place among the ten, then by the ranks
/// they are named after.
pub open spec fn kind_order(a: Kind, b: Kind) -> int {
    if a.index() < b.index() {
        -1
    } else if a.index() > b.index() {
        1
    } else {
        seq_order(a.ranks(), b.ranks())
    }
}

/// Order of two kinds: negative when `a` is the weaker, zero when they are
/// equally strong, positive when `a` is the stronger.
pub fn order_kinds(a: &Kind, b: &Kind) -> (r: i8)
    ensures
        r == kind_order(*a, *b),
{
    let pa = a.position();
    let pb = b.position();
    if pa < pb {
        return -1;
    }
    if pa > pb {
        return 1;
    }
    match (a, b) {
        (Kind::HighCard(x), Kind::HighCard(y)) => order_rank(*x, *y),
        (Kind::Pair(x), Kind::Pair(y)) => order_rank(*x, *y),
        (Kind::TwoPair { high: xh, low: xl }, Kind::TwoPair { high: yh, low: yl }) => {
            proof {
                lemma_order_double(*xh, *xl, *yh, *yl);
            }
            if *xh < *yh {
                -1
            } else if *xh > *yh {
                1
            } else if *xl < *yl {
                -1
            } else if *xl > *yl {
                1
            } else {
                0
            }
        },
        (Kind::ThreeKind(x), Kind::ThreeKind(y)) => order_rank(*x, *y),
        (Kind::Straight(x), Kind::Straight(y)) => order_rank(*x, *y),
        (Kind::Flush(x), Kind::Flush(y)) => order_ranks(x, y),
        (Kind::FullHouse { high: xh, low: xl }, Kind::FullHouse { high: yh, low: yl }) => {
            proof {
                lemma_order_double(*xh, *xl, *yh, *yl);
            }
            if *xh < *yh {
                -1
            } else if *xh > *yh {
                1
            } else if *xl < *yl {
                -1
            } else if *xl > *yl {
                1
            } else {
                0
            }
        },
        (Kind::FourKind(x), Kind::FourKind(y)) => order_rank(*x, *y),
        (Kind::StraightFlush(x), Kind::StraightFlush(y)) => order_rank(*x, *y),
        _ => 0,
    }
}

/// How strong a hand is.
#[derive(Clone, Copy, Debug, Eq, PartialEq, Structural)]
pub struct HandStrength {
    pub kind: Kind,
    pub kickers: RankTuple,
}

/// The ranks of `cards`, in the same order.
pub open spec fn card_ranks(cards: Seq<Card>) -> Seq<Rank> {
    cards.map_values(|c: Card| c.rank)
}

/// How often `r` occurs among `ranks`, counted up to four.
pub open spec fn multiplicity(ranks: Seq<Rank>, r: Rank) -> nat {
    let c = ranks.to_multiset().count(r);
    if c > NUM_SUITS {
        NUM_SUITS as nat
    } else {
        c
    }
}

/// The ranks below `bound` that occur `m` times among `ranks`, lowest
/// first.
pub open spec fn bucket(ranks: Seq<Rank>, m: nat, bound: nat) -> Seq<Rank>
    decreases bound,
{
    if bound == 0 {
        Seq::empty()
    } else {
        let rest = bucket(ranks, m, (bound - 1) as nat);
        if multiplicity(ranks, (bound - 1) as usize) == m {
            rest.push((bound - 1) as usize)
        } else {
            rest
        }
    }
}

/// The lowest `hand_size` of the sorted ranks follow one another.
pub open spec fn is_straight(sorted: Seq<Rank>, hand_size: nat) -> bool {
    sorted.len() >= hand_size && forall|i: int|
        1 <= i < hand_size ==> sorted[0] + i == #[trigger] sorted[i]
}

/// The first `hand_size` cards are of one suit.
pub open spec fn is_flush(cards: Seq<Card>, hand_size: nat) -> bool {
    cards.len() >= hand_size && forall|i: int|
        1 <= i < hand_size ==> cards[0].suit == (#[trigger] cards[i]).suit
}

/// The kickers of a hand that is worth its highest card only: the ranks
/// below the highest, highest first, and no more than fit in a hand.
pub open spec fn high_card_kickers(sorted: Seq<Rank>, hand_size: nat) -> Seq<Rank> {
    let rest = sorted.drop_last().reverse();
    if rest.len() <= hand_size - 1 {
        rest
    } else {
        rest.take(hand_size - 1)
    }
}

/// The strength of `cards` as a hand of `hand_size`, the best kind that
/// the cards make being looked for first.
pub open spec fn classify_key(cards: Seq<Card>, hand_size: nat) -> StrengthKey {
    let s = sorted_ranks(card_ranks(cards));
    let singles = bucket(s, 1, 16);
    let pairs = bucket(s, 2, 16);
    let trips = bucket(s, 3, 16);
    let quads = bucket(s, 4, 16);
    let straight = is_straight(s, hand_size);
    let flush = is_flush(cards, hand_size);
    if straight && flush {
        StrengthKey { kind: 8, primary: seq![s.last()], kickers: Seq::empty() }
    } else if quads.len() > 0 {
        StrengthKey { kind: 7, primary: seq![quads[0]], kickers: singles.reverse() }
    } else if trips.len() > 0 && pairs.len() > 0 {
        StrengthKey { kind: 6, primary: seq![trips[0], pairs[0]], kickers: Seq::empty() }
    } else if trips.len() > 1 {
        StrengthKey { kind: 6, primary: seq![trips[0], trips[1]], kickers: Seq::empty() }
    } else if flush {
        StrengthKey { kind: 5, primary: s.reverse(), kickers: Seq::empty() }
    } else if straight {
        StrengthKey { kind: 4, primary: seq![s.last()], kickers: Seq::empty() }
    } else if trips.len() > 0 {
        StrengthKey { kind: 3, primary: seq![trips[0]], kickers: singles.reverse() }
    } else if pairs.len() > 1 {
        StrengthKey { kind: 2, primary: seq![pairs[1], pairs[0]], kickers: singles.reverse() }
    } else if pairs.len() > 0 {
        StrengthKey { kind: 1, primary: seq![pairs[0]], kickers: singles.reverse() }
    } else {
        StrengthKey { kind: 0, primary: seq![s.last()], kickers: high_card_kickers(s, hand_size) }
    }
}

/// A bucket holds ranks below its bound, each once and lowest first.
proof fn lemma_bucket(ranks: Seq<Rank>, m: nat, bound: nat)
    ensures
        bucket(ranks, m, bound).len() <= bound,
        forall|i: int| 0 <= i < bucket(ranks, m, bound).len() ==> #[trigger] bucket(ranks, m, bound)[i] < bound,
    decreases bound,
{
    if bound > 0 {
        lemma_bucket(ranks, m, (bound - 1) as nat);
    }
}

/// The ranks of `t`, last first.
fn reversed(t: &RankTuple) -> (r: RankTuple)
    ensures
        r@ == t@.reverse(),
{
    let mut r = RankTuple::new();
    let n = t.len();
    let mut i: usize = 0;
    proof {
        use_type_invariant(t);
        t.lemma_view();
    }
    while i < n
        invariant
            i <= n,
            n == t@.len(),
            n <= 16,
            forall|k: int| 0 <= k < t@.len() ==> #[trigger] t@[k] < 16,
            r@.len() == i,
            forall|k: int| 0 <= k < i ==> #[trigger] r@[k] == t@[n - 1 - k],
        decreases n - i,
    {
        let x = t.get(n - 1 - i);
        r.push(x);
        i = i + 1;
    }
    assert(r@ =~= t@.reverse());
    r
}

impl HandStrength {
    /// What decides between this hand and another: its kind, the ranks
    /// that the kind is named after, and its kickers. A hand that wins it
    /// all is told by its kind alone: its kickers decide nothing.
    pub open spec fn key(self) -> StrengthKey {
        StrengthKey {
            kind: self.kind.index(),
            primary: self.kind.ranks(),
            kickers: if self.kind is WinsItAll {
                Seq::empty()
            } else {
                self.kickers@
            },
        }
    }

    /// Order of two hands: negative when `self` is the weaker, zero when
    /// they tie, positive when `self` is the stronger. Suits never decide,
    /// and two hands that win it all tie whatever else they hold.
    pub fn order(&self, other: &HandStrength) -> (r: i8)
        ensures
            r == key_order(self.key(), other.key()),
    {
        let k = order_kinds(&self.kind, &other.kind);
        if k != 0 {
            k
        } else {
            match self.kind {
                Kind::WinsItAll => 0,
                _ => order_ranks(&self.kickers, &other.kickers),
            }
        }
    }

    /// A hand that wins it all is at least as strong as any hand, and ties
    /// with every other hand that wins it all.
    pub proof fn lemma_wins_it_all(self, other: HandStrength)
        requires
            self.kind is WinsItAll,
        ensures
            key_order(other.key(), self.key()) <= 0,
            other.kind is WinsItAll ==> key_order(other.key(), self.key()) == 0 && other.key()
                == self.key(),
    {
        lemma_seq_order_zero(other.kind.ranks(), self.kind.ranks());
    }

    /// Whether `self` is the stronger hand.
    pub fn beats(&self, other: &HandStrength) -> (r: bool)
        ensures
            r == (key_order(self.key(), other.key()) > 0),
    {
        self.order(other) > 0
    }

    /// Whether the two hands are equally strong.
    pub fn ties(&self, other: &HandStrength) -> (r: bool)
        ensures
            r == (self.key() == other.key()),
    {
        proof {
            lemma_key_order_total(self.key(), other.key(), self.key());
        }
        self.order(other) == 0
    }

    /// Classifies `cards` as a hand of `hand_size`.
    pub fn new(cards: CardTuple, hand_size: usize) -> (r: HandStrength)
        requires
            cards@.len() > 0,
            hand_size > 0,
        ensures
            r.key() == classify_key(cards@, hand_size as nat),
    {
        broadcast use vstd::seq_lib::group_to_multiset_ensures;
        broadcast use vstd::multiset::group_multiset_axioms;

        let mut ranks = cards.ranks();
        ranks.sort();
        let ghost s = ranks@;
        let n = ranks.len();
        proof {
            lemma_sorted_ranks(card_ranks(cards@));
            use_type_invariant(&ranks);
            ranks.lemma_view();
            assert(s == sorted_ranks(card_ranks(cards@)));
            assert(n == cards@.len());
        }
        // Straight: the lowest ranks follow one another.
        let mut straight = n >= hand_size;
        if straight {
            let low = ranks.get(0);
            let mut i: usize = 1;
            while i < hand_size && straight
                invariant
                    1 <= i <= hand_size,
                    hand_size <= n,
                    n == s.len(),
                    s == ranks@,
                    low == s[0],
                    low < 16,
                    n <= 16,
                    forall|k: int| 0 <= k < s.len() ==> #[trigger] s[k] < 16,
                    straight ==> forall|k: int| 1 <= k < i ==> s[0] + k == #[trigger] s[k],
                    !straight ==> !is_straight(s, hand_size as nat),
                decreases hand_size - i + (if straight { 1int } else { 0int }),
            {
                if low + i != ranks.get(i) {
                    straight = false;
                } else {
                    i = i + 1;
                }
            }
        }
        assert(straight == is_straight(s, hand_size as nat));
        // Flush: the cards are of one suit.
        let mut flush = cards.len() >= hand_size;
        if flush {
            let first = cards.get(0);
            let mut i: usize = 1;
            while i < hand_size && flush
                invariant
                    1 <= i <= hand_size,
                    hand_size <= cards@.len(),
                    first == cards@[0],
                    flush ==> forall|k: int| 1 <= k < i ==> cards@[0].suit == (#[trigger] cards@[k]).suit,
                    !flush ==> !is_flush(cards@, hand_size as nat),
                decreases hand_size - i + (if flush { 1int } else { 0int }),
            {
                let c = cards.get(i);
                if first.suit.0 != c.suit.0 {
                    flush = false;
                } else {
                    i = i + 1;
                }
            }
        }
        assert(flush == is_flush(cards@, hand_size as nat));
        // How often each rank occurs.
        let mut by_rank: Vec<usize> = Vec::new();
        let mut r: usize = 0;
        while r < 16
            invariant
                r <= 16,
                by_rank@.len() == r,
                forall|x: int| 0 <= x < r ==> by_rank@[x] == 0,
            decreases 16 - r,
        {
            by_rank.push(0);
            r = r + 1;
        }
        let mut idx: usize = 0;
        while idx < n
            invariant
                idx <= n,
                n == s.len(),
                n <= 16,
                s == ranks@,
                by_rank@.len() == 16,
                forall|k: int| 0 <= k < s.len() ==> #[trigger] s[k] < 16,
                forall|x: int|
                    0 <= x < 16 ==> #[trigger] by_rank@[x] == s.take(idx as int).to_multiset().count(
                        x as usize,
                    ),
            decreases n - idx,
        {
            let rank = ranks.get(idx);
            proof {
                let seen = s.take(idx as int);
                assert(s.take(idx + 1) =~= seen.push(rank));
                vstd::seq_lib::to_multiset_build(seen, rank);
                vstd::seq_lib::to_multiset_len(seen);
                vstd::multiset::axiom_count_le_len(seen.to_multiset(), rank);
            }
            let c: usize = by_rank[rank];
            by_rank.set(rank, c + 1);
            idx = idx + 1;
        }
        assert(s.take(n as int) =~= s);
        // The ranks by how often they occur.
        let mut singles = RankTuple::new();
        let mut pairs = RankTuple::new();
        let mut trips = RankTuple::new();
        let mut quads = RankTuple::new();
        let mut rank: usize = 0;
        while rank < 16
            invariant
                rank <= 16,
                by_rank@.len() == 16,
                forall|x: int| 0 <= x < 16 ==> #[trigger] by_rank@[x] == s.to_multiset().count(x as usize),
                singles@ == bucket(s, 1, rank as nat),
                pairs@ == bucket(s, 2, rank as nat),
                trips@ == bucket(s, 3, rank as nat),
                quads@ == bucket(s, 4, rank as nat),
            decreases 16 - rank,
        {
            proof {
                lemma_bucket(s, 1, rank as nat);
                lemma_bucket(s, 2, rank as nat);
                lemma_bucket(s, 3, rank as nat);
                lemma_bucket(s, 4, rank as nat);
                assert(by_rank@[rank as int] == s.to_multiset().count(rank));
            }
            let count = by_rank[rank];
            let amount: usize = if count > NUM_SUITS {
                NUM_SUITS
            } else {
                count
            };
            assert(amount == multiplicity(s, rank));
            if amount == 1 {
                singles.push(rank);
            } else if amount == 2 {
                pairs.push(rank);
            } else if amount == 3 {
                trips.push(rank);
            } else if amount == 4 {
                quads.push(rank);
            }
            rank = rank + 1;
        }
        let none = RankTuple::new();
        if straight && flush {
            let top = ranks.get(n - 1);
            return HandStrength { kind: Kind::StraightFlush(top), kickers: none };
        }
        if quads.len() > 0 {
            let kickers = reversed(&singles);
            return HandStrength { kind: Kind::FourKind(quads.get(0)), kickers };
        }
        if trips.len() > 0 && pairs.len() > 0 {
            let kind = Kind::FullHouse { high: trips.get(0), low: pairs.get(0) };
            return HandStrength { kind, kickers: none };
        }
        if trips.len() > 1 {
            let kind = Kind::FullHouse { high: trips.get(0), low: trips.get(1) };
            return HandStrength { kind, kickers: none };
        }
        if flush {
            return HandStrength { kind: Kind::Flush(reversed(&ranks)), kickers: none };
        }
        if straight {
            let top = ranks.get(n - 1);
            return HandStrength { kind: Kind::Straight(top), kickers: none };
        }
        let kickers = reversed(&singles);
        if trips.len() > 0 {
            return HandStrength { kind: Kind::ThreeKind(trips.get(0)), kickers };
        }
        if pairs.len() > 1 {
            let kind = Kind::TwoPair { high: pairs.get(1), low: pairs.get(0) };
            return HandStrength { kind, kickers };
        }
        if pairs.len() > 0 {
            return HandStrength { kind: Kind::Pair(pairs.get(0)), kickers };
        }
        // Nothing but the highest card: the ranks below it are the kickers.
        let mut rest = RankTuple::new();
        let mut taken: usize = 0;
        let ghost below = s.drop_last().reverse();
        while taken < n - 1 && taken < hand_size - 1
            invariant
                taken <= n - 1,
                taken <= hand_size - 1,
                1 <= n <= 16,
                n == s.len(),
                s == ranks@,
                below == s.drop_last().reverse(),
                forall|k: int| 0 <= k < s.len() ==> #[trigger] s[k] < 16,
                rest@ == below.take(taken as int),
            decreases n - 1 - taken,
        {
            let x = ranks.get(n - 2 - taken);
            rest.push(x);
            proof {
                assert(below[taken as int] == x);
                assert(below.take(taken + 1) =~= below.take(taken as int).push(x));
            }
            taken = taken + 1;
        }
        proof {
            if below.len() <= hand_size - 1 {
                assert(below.take(taken as int) =~= below);
            }
        }
        HandStrength { kind: Kind::HighCard(ranks.get(n - 1)), kickers: rest }
    }
}


/// The ace of the suit of `c`, played high.
pub open spec fn high_ace(c: Card) -> Card {
    Card { rank: NUM_RANKS, suit: c.suit }
}

/// A high ace for each ace among `cards`, in the order of the aces.
pub open spec fn high_aces(cards: Seq<Card>) -> Seq<Card>
    decreases cards.len(),
{
    if cards.len() == 0 {
        Seq::empty()
    } else {
        let rest = high_aces(cards.drop_last());
        if cards.last().rank == 0 {
            rest.push(high_ace(cards.last()))
        } else {
            rest
        }
    }
}

/// Cards without an ace have no high aces, and cards with one ace have
/// one: the ace of the same suit with the top rank.
pub proof fn lemma_high_aces(cards: Seq<Card>, k: int)
    ensures
        (forall|i: int| 0 <= i < cards.len() ==> (#[trigger] cards[i]).rank != 0) ==> high_aces(cards)
            == Seq::<Card>::empty(),
        0 <= k < cards.len() && cards[k].rank == 0 && (forall|i: int|
            0 <= i < cards.len() && i != k ==> (#[trigger] cards[i]).rank != 0) ==> high_aces(cards)
            == seq![high_ace(cards[k])],
    decreases cards.len(),
{
    if cards.len() > 0 {
        let head = cards.drop_last();
        lemma_high_aces(head, k);
        if forall|i: int| 0 <= i < cards.len() ==> (#[trigger] cards[i]).rank != 0 {
            assert forall|i: int| 0 <= i < head.len() implies (#[trigger] head[i]).rank != 0 by {
                assert(head[i] == cards[i]);
            }
        }
        if 0 <= k < cards.len() && cards[k].rank == 0 && (forall|i: int|
            0 <= i < cards.len() && i != k ==> (#[trigger] cards[i]).rank != 0) {
            if k == cards.len() - 1 {
                assert forall|i: int| 0 <= i < head.len() implies (#[trigger] head[i]).rank != 0 by {
                    assert(head[i] == cards[i]);
                }
                lemma_high_aces(head, 0);
                assert(high_aces(cards) =~= seq![high_ace(cards[k])]);
            } else {
                assert(head[k] == cards[k]);
                assert forall|i: int| 0 <= i < head.len() && i != k implies (#[trigger] head[i]).rank
                    != 0 by {
                    assert(head[i] == cards[i]);
                }
                assert(cards.last() == cards[cards.len() - 1]);
            }
        }
    }
}

/// Adds, for each ace among `cards`, the same ace played high.
pub fn explode_aces(cards: CardTuple) -> (r: CardTuple)
    requires
        cards@.len() + high_aces(cards@).len() <= CARD_TUPLE_CAPACITY,
    ensures
        r@ == cards@ + high_aces(cards@),
{
    let mut retval = cards;
    let n = cards.len();
    let mut i: usize = 0;
    assert(cards@.take(0) =~= Seq::<Card>::empty());
    assert(retval@ =~= cards@ + high_aces(cards@.take(0)));
    while i < n
        invariant
            i <= n,
            n == cards@.len(),
            cards@.len() + high_aces(cards@).len() <= CARD_TUPLE_CAPACITY,
            retval@ == cards@ + high_aces(cards@.take(i as int)),
        decreases n - i,
    {
        let card = cards.get(i);
        proof {
            assert(cards@.take(i + 1).drop_last() =~= cards@.take(i as int));
            lemma_high_aces_grow(cards@, i + 1);
        }
        if card.rank == 0 {
            retval.push(Card { rank: NUM_RANKS, suit: card.suit });
            assert(retval@ =~= cards@ + high_aces(cards@.take(i + 1)));
        }
        i = i + 1;
    }
    assert(cards@.take(n as int) =~= cards@);
    retval
}

proof fn lemma_high_aces_grow(cards: Seq<Card>, k: int)
    requires
        0 <= k <= cards.len(),
    ensures
        high_aces(cards.take(k)).len() <= high_aces(cards).len(),
    decreases cards.len() - k,
{
    if k < cards.len() {
        lemma_high_aces_grow(cards, k + 1);
        assert(cards.take(k + 1).drop_last() =~= cards.take(k));
    } else {
        assert(cards.take(k) =~= cards);
    }
}

/// `h` is a way to read `hand`: each card as it is, but that an ace at
/// position `from` or later may be played high.
pub open spec fn is_reading(hand: Seq<Card>, from: int, h: Seq<Card>) -> bool {
    &&& h.len() == hand.len()
    &&& forall|k: int|
        0 <= k < hand.len() ==> #[trigger] h[k] == hand[k] || (k >= from && hand[k].rank == 0 && h[k]
            == high_ace(hand[k]))
}

/// `best` is the strength of the strongest reading of `hand`.
pub open spec fn is_best_reading(hand: Seq<Card>, from: int, hand_size: nat, best: StrengthKey) -> bool {
    &&& exists|h: Seq<Card>| #[trigger] is_reading(hand, from, h) && best == classify_key(h, hand_size)
    &&& forall|h: Seq<Card>| #[trigger]
        is_reading(hand, from, h) ==> key_order(classify_key(h, hand_size), best) <= 0
}

/// The strongest hand among the ways to read `hand`, the aces before
/// position `from` being played low.
fn best_reading(hand: CardTuple, from: usize, hand_size: usize) -> (r: HandStrength)
    requires
        hand@.len() > 0,
        hand_size > 0,
        from <= hand@.len(),
    ensures
        is_best_reading(hand@, from as int, hand_size as nat, r.key()),
    decreases hand@.len() - from,
{
    let n = hand.len();
    let ghost hs = hand_size as nat;
    let mut i: usize = from;
    while i < n && hand.get(i).rank != 0
        invariant
            from <= i <= n,
            n == hand@.len(),
            forall|k: int| from <= k < i ==> (#[trigger] hand@[k]).rank != 0,
        decreases n - i,
    {
        i = i + 1;
    }
    if i == n {
        let r = HandStrength::new(hand, hand_size);
        proof {
            assert(is_reading(hand@, from as int, hand@));
            assert forall|h: Seq<Card>| #[trigger] is_reading(hand@, from as int, h) implies key_order(
                classify_key(h, hs),
                r.key(),
            ) <= 0 by {
                assert forall|k: int| 0 <= k < hand@.len() implies h[k] == hand@[k] by {
                    assert(h[k] == hand@[k] || (k >= from && hand@[k].rank == 0));
                }
                assert(h =~= hand@);
                lemma_key_order_total(r.key(), r.key(), r.key());
            }
        }
        return r;
    }
    let ace = hand.get(i);
    let low = best_reading(hand, i + 1, hand_size);
    let raised = hand.with_card(i, Card { rank: NUM_RANKS, suit: ace.suit });
    let high = best_reading(raised, i + 1, hand_size);
    let r = if high.beats(&low) {
        high
    } else {
        low
    };
    proof {
        lemma_key_order_total(low.key(), high.key(), low.key());
        lemma_key_order_total(high.key(), high.key(), high.key());
        let hl = choose|h: Seq<Card>| #[trigger]
            is_reading(hand@, i + 1, h) && low.key() == classify_key(h, hs);
        let hh = choose|h: Seq<Card>| #[trigger]
            is_reading(raised@, i + 1, h) && high.key() == classify_key(h, hs);
        assert(is_reading(hand@, from as int, hl));
        assert(is_reading(hand@, from as int, hh)) by {
            assert forall|k: int| 0 <= k < hand@.len() implies #[trigger] hh[k] == hand@[k] || (k
                >= from && hand@[k].rank == 0 && hh[k] == high_ace(hand@[k])) by {
                assert(hh[k] == raised@[k] || (k >= i + 1 && raised@[k].rank == 0 && hh[k]
                    == high_ace(raised@[k])));
            }
        }
        assert forall|h: Seq<Card>| #[trigger] is_reading(hand@, from as int, h) implies key_order(
            classify_key(h, hs),
            r.key(),
        ) <= 0 by {
            assert(h[i as int] == hand@[i as int] || h[i as int] == high_ace(hand@[i as int]));
            if h[i as int] == hand@[i as int] {
                assert(is_reading(hand@, i + 1, h)) by {
                    assert forall|k: int| 0 <= k < hand@.len() implies #[trigger] h[k] == hand@[k]
                        || (k >= i + 1 && hand@[k].rank == 0 && h[k] == high_ace(hand@[k])) by {
                        assert(h[k] == hand@[k] || (k >= from && hand@[k].rank == 0 && h[k]
                            == high_ace(hand@[k])));
                    }
                }
                lemma_key_order_total(classify_key(h, hs), low.key(), r.key());
            } else {
                assert(is_reading(raised@, i + 1, h)) by {
                    assert forall|k: int| 0 <= k < raised@.len() implies #[trigger] h[k]
                        == raised@[k] || (k >= i + 1 && raised@[k].rank == 0 && h[k] == high_ace(
                        raised@[k],
                    )) by {
                        assert(h[k] == hand@[k] || (k >= from && hand@[k].rank == 0 && h[k]
                            == high_ace(hand@[k])));
                    }
                }
                lemma_key_order_total(classify_key(h, hs), high.key(), r.key());
            }
        }
    }
    r
}

/// `c` is one of the wild cards of `rules`.
pub open spec fn is_wild(rules: Seq<SpecialCard>, c: Card) -> bool {
    exists|j: int|
        0 <= j < rules.len() && #[trigger] rules[j] == (SpecialCard {
            wtype: SpecialCardType::Wild,
            card: c,
        })
}

/// The cards of `cards` that are not wild, in the same order.
pub open spec fn unwild_cards(cards: Seq<Card>, rules: Seq<SpecialCard>) -> Seq<Card>
    decreases cards.len(),
{
    if cards.len() == 0 {
        Seq::empty()
    } else {
        let rest = unwild_cards(cards.drop_last(), rules);
        if is_wild(rules, cards.last()) {
            rest
        } else {
            rest.push(cards.last())
        }
    }
}

/// `h` is a way to play the cards `chosen`: the wild cards among them
/// stand for other cards, and aces may be played high.
pub open spec fn is_play(chosen: Seq<Card>, rules: Seq<SpecialCard>, h: Seq<Card>) -> bool {
    let unwild = unwild_cards(chosen, rules);
    exists|w: Seq<Card>| #[trigger]
        is_substitution(unwild, (chosen.len() - unwild.len()) as nat, w) && is_reading(w, 0, h)
}

/// `best` is the strength of the strongest way to play `chosen`.
pub open spec fn is_best_play(
    chosen: Seq<Card>,
    rules: Seq<SpecialCard>,
    hand_size: nat,
    best: StrengthKey,
) -> bool {
    &&& exists|h: Seq<Card>| #[trigger] is_play(chosen, rules, h) && best == classify_key(h, hand_size)
    &&& forall|h: Seq<Card>| #[trigger]
        is_play(chosen, rules, h) ==> key_order(classify_key(h, hand_size), best) <= 0
}

proof fn lemma_unwild_cards(cards: Seq<Card>, rules: Seq<SpecialCard>)
    ensures
        unwild_cards(cards, rules).len() <= cards.len(),
    decreases cards.len(),
{
    if cards.len() > 0 {
        lemma_unwild_cards(cards.drop_last(), rules);
    }
}

/// Whether `rules` make `card` wild.
fn card_is_wild(rules: &SpecialRules, card: Card) -> (r: bool)
    ensures
        r == is_wild(rules@, card),
{
    let mut j: usize = 0;
    while j < rules.len()
        invariant
            j <= rules@.len(),
            forall|k: int|
                0 <= k < j ==> #[trigger] rules@[k] != (SpecialCard {
                    wtype: SpecialCardType::Wild,
                    card,
                }),
        decreases rules@.len() - j,
    {
        let rule = rules[j];
        if rule.wtype == SpecialCardType::Wild && rule.card == card {
            return true;
        }
        j = j + 1;
    }
    false
}

/// The strongest hand among the ways to play the cards `chosen`.
fn best_play(chosen: CardTuple, hand_size: usize, rules: &SpecialRules) -> (r: HandStrength)
    requires
        chosen@.len() > 0,
        hand_size > 0,
    ensures
        is_best_play(chosen@, rules@, hand_size as nat, r.key()),
{
    let ghost hs = hand_size as nat;
    let n = chosen.len();
    let mut unwild = CardTuple::new();
    let mut num_wild: usize = 0;
    let mut i: usize = 0;
    assert(chosen@.take(0) =~= Seq::<Card>::empty());
    while i < n
        invariant
            i <= n,
            n == chosen@.len(),
            n <= CARD_TUPLE_CAPACITY,
            unwild@ == unwild_cards(chosen@.take(i as int), rules@),
            unwild@.len() + num_wild == i,
        decreases n - i,
    {
        let card = chosen.get(i);
        proof {
            assert(chosen@.take(i + 1).drop_last() =~= chosen@.take(i as int));
        }
        if card_is_wild(rules, card) {
            num_wild = num_wild + 1;
        } else {
            unwild.push(card);
        }
        i = i + 1;
    }
    assert(chosen@.take(n as int) =~= chosen@);
    let ghost nw = num_wild as nat;
    assert(nw == (chosen@.len() - unwild@.len()) as nat);
    let hands = wild_combinations(unwild, num_wild);
    proof {
        let sel = choose|sel: Seq<int>| substitutes(unwild@, nw, sel, hands@[0]@);
    }
    let mut best = best_reading(hands[0], 0, hand_size);
    let ghost mut wit_j: int = 0;
    let ghost mut wit_h: Seq<Card> = choose|h: Seq<Card>| #[trigger]
        is_reading(hands@[0]@, 0, h) && best.key() == classify_key(h, hs);
    let mut j: usize = 1;
    while j < hands.len()
        invariant
            1 <= j <= hands@.len(),
            hand_size > 0,
            hs == hand_size,
            chosen@.len() > 0,
            nw == (chosen@.len() - unwild@.len()) as nat,
            forall|i: int| 0 <= i < hands@.len() ==> is_substitution(unwild@, nw, (#[trigger] hands@[i])@),
            0 <= wit_j < j,
            is_reading(hands@[wit_j]@, 0, wit_h),
            best.key() == classify_key(wit_h, hs),
            forall|k: int, h: Seq<Card>|
                0 <= k < j && #[trigger] is_reading(hands@[k]@, 0, h) ==> key_order(
                    classify_key(h, hs),
                    best.key(),
                ) <= 0,
        decreases hands@.len() - j,
    {
        proof {
            let sel = choose|sel: Seq<int>| substitutes(unwild@, nw, sel, hands@[j as int]@);
        }
        let s = best_reading(hands[j], 0, hand_size);
        let ghost old_best = best;
        proof {
            lemma_key_order_total(s.key(), best.key(), s.key());
        }
        if s.beats(&best) {
            best = s;
            proof {
                wit_j = j as int;
                wit_h = choose|h: Seq<Card>| #[trigger]
                    is_reading(hands@[j as int]@, 0, h) && s.key() == classify_key(h, hs);
            }
        }
        proof {
            assert forall|k: int, h: Seq<Card>|
                0 <= k < j + 1 && #[trigger] is_reading(hands@[k]@, 0, h) implies key_order(
                classify_key(h, hs),
                best.key(),
            ) <= 0 by {
                if k < j {
                    lemma_key_order_total(classify_key(h, hs), old_best.key(), best.key());
                } else {
                    lemma_key_order_total(classify_key(h, hs), s.key(), best.key());
                }
            }
        }
        j = j + 1;
    }
    proof {
        assert(is_substitution(unwild@, nw, hands@[wit_j]@));
        assert(is_play(chosen@, rules@, wit_h));
        assert forall|h: Seq<Card>| #[trigger] is_play(chosen@, rules@, h) implies key_order(
            classify_key(h, hs),
            best.key(),
        ) <= 0 by {
            let w = choose|w: Seq<Card>| #[trigger]
                is_substitution(unwild@, nw, w) && is_reading(w, 0, h);
            assert(holds_hand(hands@, w));
            let k = choose|k: int| 0 <= k < hands@.len() && (#[trigger] hands@[k])@ == w;
            assert(is_reading(hands@[k]@, 0, h));
        }
    }
    best
}

/// One of the cards of `hand` wins it all under `rules`.
pub open spec fn holds_winner(hand: Seq<Card>, rules: Seq<SpecialCard>) -> bool {
    exists|i: int, j: int|
        0 <= i < hand.len() && 0 <= j < rules.len() && #[trigger] rules[j] == (SpecialCard {
            wtype: SpecialCardType::WinsItAll,
            card: #[trigger] hand[i],
        })
}

/// The strength of a hand that wins it all.
pub open spec fn wins_it_all_key() -> StrengthKey {
    StrengthKey { kind: 9, primary: Seq::empty(), kickers: Seq::empty() }
}

/// `h` is a way to play `p` of the cards `all`.
pub open spec fn is_hand_play(all: Seq<Card>, p: nat, rules: Seq<SpecialCard>, h: Seq<Card>) -> bool {
    exists|sel: Seq<int>|
        sel.len() == p && #[trigger] valid_selection(all.len() as int, false, sel) && is_play(
            pick(all, sel),
            rules,
            h,
        )
}

/// How many cards of `n` make a hand of `hand_size`.
pub open spec fn cards_in_hand(n: nat, hand_size: nat) -> nat {
    if n < hand_size {
        n
    } else {
        hand_size
    }
}

/// `best` is the strength of the best hand that the cards `hand` make
/// with the cards `community`: the strength that wins it all where `hand`
/// holds such a card, and else the strongest way to play `hand_size` of
/// all the cards.
pub open spec fn is_best_hand(
    hand: Seq<Card>,
    community: Seq<Card>,
    hand_size: nat,
    rules: Seq<SpecialCard>,
    best: StrengthKey,
) -> bool {
    if holds_winner(hand, rules) {
        best == wins_it_all_key()
    } else {
        let all = hand + community;
        let p = cards_in_hand(all.len(), hand_size);
        &&& exists|h: Seq<Card>| #[trigger]
            is_hand_play(all, p, rules, h) && best == classify_key(h, hand_size)
        &&& forall|h: Seq<Card>| #[trigger]
            is_hand_play(all, p, rules, h) ==> key_order(classify_key(h, hand_size), best) <= 0
    }
}

/// Whether a card of `hand` wins it all under `rules`.
fn holds_winning_card(hand: &CardTuple, rules: &SpecialRules) -> (r: bool)
    ensures
        r == holds_winner(hand@, rules@),
{
    let n = hand.len();
    let mut j: usize = 0;
    while j < rules.len()
        invariant
            j <= rules@.len(),
            n == hand@.len(),
            forall|i: int, k: int|
                0 <= i < hand@.len() && 0 <= k < j ==> #[trigger] rules@[k] != (SpecialCard {
                    wtype: SpecialCardType::WinsItAll,
                    card: #[trigger] hand@[i],
                }),
        decreases rules@.len() - j,
    {
        let rule = rules[j];
        if rule.wtype == SpecialCardType::WinsItAll {
            let mut i: usize = 0;
            while i < n
                invariant
                    i <= n,
                    n == hand@.len(),
                    j < rules@.len(),
                    rule == rules@[j as int],
                    rule.wtype == SpecialCardType::WinsItAll,
                    forall|k: int| 0 <= k < i ==> (#[trigger] hand@[k]) != rule.card,
                decreases n - i,
            {
                let c = hand.get(i);
                if c == rule.card {
                    return true;
                }
                i = i + 1;
            }
        }
        j = j + 1;
    }
    false
}

/// The best hand of `hand_size` that the cards `hand` make together with
/// the cards `community` under `rules`.
pub fn best_hand(hand: CardTuple, community: CardTuple, hand_size: usize, rules: &SpecialRules) -> (r:
    HandStrength)
    requires
        0 < hand@.len() + community@.len() <= CARD_TUPLE_CAPACITY,
        hand_size > 0,
    ensures
        is_best_hand(hand@, community@, hand_size as nat, rules@, r.key()),
{
    if holds_winning_card(&hand, rules) {
        return HandStrength { kind: Kind::WinsItAll, kickers: RankTuple::new() };
    }
    let ghost hs = hand_size as nat;
    let all_cards = hand.concat(community);
    let ghost all = all_cards@;
    let comb_size = if all_cards.len() < hand_size {
        all_cards.len()
    } else {
        hand_size
    };
    let ghost p = comb_size as nat;
    let ghost n = all.len() as int;
    proof {
        use_type_invariant(&all_cards);
        all_cards.lemma_view();
    }
    let mut combos = combinations(all_cards.to_vec(), comb_size);
    let mut best: Option<HandStrength> = None;
    let ghost mut wit_sel: Seq<int> = Seq::empty();
    let ghost mut wit_h: Seq<Card> = Seq::empty();
    proof {
        let lowest = Seq::new(p, |i: int| i);
        assert(lowest.len() == p && valid_selection(n, false, lowest));
        assert(combos.pending() is Some);
        assert forall|u: Seq<int>|
            u.len() == p && valid_selection(n, false, u) && (combos.pending() matches Some(t)
                && lex_less(u, t)) implies false by {
            let t = combos.pending()->Some_0;
            lemma_lex_asymmetric(u, t);
        }
    }
    loop
        invariant
            combos.wf(),
            combos.source() == all,
            combos.size() == p,
            !combos.with_replacement(),
            0 < p <= all.len(),
            n == all.len(),
            all == hand@ + community@,
            p == cards_in_hand(all.len(), hs),
            !holds_winner(hand@, rules@),
            hand_size > 0,
            hs == hand_size,
            forall|i: int| 0 <= i < all.len() ==> (#[trigger] all[i]).valid(),
            all.len() <= CARD_TUPLE_CAPACITY,
            combos.pending() is Some || best is Some,
            best matches Some(b) ==> {
                &&& wit_sel.len() == p
                &&& valid_selection(n, false, wit_sel)
                &&& is_play(pick(all, wit_sel), rules@, wit_h)
                &&& b.key() == classify_key(wit_h, hs)
            },
            forall|u: Seq<int>, h: Seq<Card>|
                u.len() == p && #[trigger] valid_selection(n, false, u) && (combos.pending() matches Some(
                    t,
                ) ==> lex_less(u, t)) && #[trigger] is_play(pick(all, u), rules@, h) ==> best is Some
                    && key_order(classify_key(h, hs), best->Some_0.key()) <= 0,
        decreases combos.remaining(),
    {
        proof {
            combos.lemma_pending();
        }
        let ghost pending = combos.pending();
        let ghost old_best = best;
        match combos.next() {
            None => {
                match best {
                    Some(b) => {
                        proof {
                            assert(is_hand_play(all, p, rules@, wit_h));
                            assert forall|h: Seq<Card>| #[trigger] is_hand_play(all, p, rules@, h) implies key_order(
                                classify_key(h, hs),
                                b.key(),
                            ) <= 0 by {
                                let u = choose|sel: Seq<int>|
                                    sel.len() == p && #[trigger] valid_selection(n, false, sel)
                                        && is_play(pick(all, sel), rules@, h);
                                assert(is_play(pick(all, u), rules@, h));
                            }
                        }
                        return b;
                    },
                    None => {
                        return unreached();
                    },
                }
            },
            Some(v) => {
                let ghost sel = pending->Some_0;
                proof {
                    crate::special_card::lemma_picked_cards(all, sel, v@);
                    assert forall|i: int| 0 <= i < v@.len() implies (#[trigger] v@[i]).valid() by {
                        assert(0 <= sel[i] < n);
                        assert(v@[i] == all[sel[i]]);
                    }
                }
                let chosen = CardTuple::from_vec(v);
                let s = best_play(chosen, hand_size, rules);
                let better = match best {
                    Some(b) => s.beats(&b),
                    None => true,
                };
                proof {
                    if old_best is Some {
                        lemma_key_order_total(s.key(), old_best->Some_0.key(), s.key());
                    }
                    lemma_key_order_total(s.key(), s.key(), s.key());
                }
                if better {
                    best = Some(s);
                    proof {
                        wit_sel = sel;
                        wit_h = choose|h: Seq<Card>| #[trigger]
                            is_play(chosen@, rules@, h) && s.key() == classify_key(h, hs);
                    }
                }
                proof {
                    let next = combos.pending();
                    let now = best->Some_0;
                    assert forall|u: Seq<int>, h: Seq<Card>|
                        u.len() == p && #[trigger] valid_selection(n, false, u) && (next matches Some(t)
                            ==> lex_less(u, t)) && #[trigger] is_play(
                            pick(all, u),
                            rules@,
                            h,
                        ) implies best is Some && key_order(classify_key(h, hs), now.key()) <= 0 by {
                        lemma_walk_covers(n, false, sel, next, u);
                        if u == sel {
                            lemma_key_order_total(classify_key(h, hs), s.key(), now.key());
                        } else {
                            assert(old_best is Some && key_order(
                                classify_key(h, hs),
                                old_best->Some_0.key(),
                            ) <= 0);
                            lemma_key_order_total(
                                classify_key(h, hs),
                                old_best->Some_0.key(),
                                now.key(),
                            );
                        }
                    }
                }
            },
        }
    }
}

/// `best` is the strength of the best hand that can be made with
/// `use_from_hand` of the cards `hand` (or all of them, if they are fewer)
/// and the cards `community`.
pub open spec fn is_best_using(
    use_from_hand: nat,
    hand: Seq<Card>,
    community: Seq<Card>,
    hand_size: nat,
    rules: Seq<SpecialCard>,
    best: StrengthKey,
) -> bool {
    let p = cards_in_hand(hand.len(), use_from_hand);
    &&& exists|sel: Seq<int>|
        sel.len() == p && #[trigger] valid_selection(hand.len() as int, false, sel) && is_best_hand(
            pick(hand, sel),
            community,
            hand_size,
            rules,
            best,
        )
    &&& forall|sel: Seq<int>, k: StrengthKey|
        sel.len() == p && #[trigger] valid_selection(hand.len() as int, false, sel)
            && #[trigger] is_best_hand(pick(hand, sel), community, hand_size, rules, k)
            ==> key_order(k, best) <= 0
}

/// The best hand of `hand_size` that can be made with `use_from_hand` of
/// the cards `hand` (or all of them, if they are fewer) and the cards
/// `community`.
pub fn best_hand_use_from_hand(
    use_from_hand: usize,
    hand: CardTuple,
    community: CardTuple,
    hand_size: usize,
    rules: &SpecialRules,
) -> (r: HandStrength)
    requires
        0 < cards_in_hand(hand@.len(), use_from_hand as nat) + community@.len()
            <= CARD_TUPLE_CAPACITY,
        hand_size > 0,
    ensures
        is_best_using(use_from_hand as nat, hand@, community@, hand_size as nat, rules@, r.key()),
{
    let ghost hs = hand_size as nat;
    let ghost cards = hand@;
    let ghost n = cards.len() as int;
    let use_n = if hand.len() < use_from_hand {
        hand.len()
    } else {
        use_from_hand
    };
    let ghost p = use_n as nat;
    proof {
        use_type_invariant(&hand);
        hand.lemma_view();
    }
    let mut combos = combinations(hand.to_vec(), use_n);
    let mut best: Option<HandStrength> = None;
    let ghost mut wit_sel: Seq<int> = Seq::empty();
    proof {
        let lowest = Seq::new(p, |i: int| i);
        assert(lowest.len() == p && valid_selection(n, false, lowest));
        assert(combos.pending() is Some);
        assert forall|u: Seq<int>|
            u.len() == p && valid_selection(n, false, u) && (combos.pending() matches Some(t)
                && lex_less(u, t)) implies false by {
            let t = combos.pending()->Some_0;
            lemma_lex_asymmetric(u, t);
        }
    }
    loop
        invariant
            combos.wf(),
            combos.source() == cards,
            combos.size() == p,
            !combos.with_replacement(),
            p <= cards.len(),
            n == cards.len(),
            cards == hand@,
            p == cards_in_hand(cards.len(), use_from_hand as nat),
            hand_size > 0,
            hs == hand_size,
            0 < p + community@.len() <= CARD_TUPLE_CAPACITY,
            forall|i: int| 0 <= i < cards.len() ==> (#[trigger] cards[i]).valid(),
            combos.pending() is Some || best is Some,
            best matches Some(b) ==> {
                &&& wit_sel.len() == p
                &&& valid_selection(n, false, wit_sel)
                &&& is_best_hand(pick(cards, wit_sel), community@, hs, rules@, b.key())
            },
            forall|u: Seq<int>, k: StrengthKey|
                u.len() == p && #[trigger] valid_selection(n, false, u) && (combos.pending() matches Some(
                    t,
                ) ==> lex_less(u, t)) && #[trigger] is_best_hand(
                    pick(cards, u),
                    community@,
                    hs,
                    rules@,
                    k,
                ) ==> best is Some && key_order(k, best->Some_0.key()) <= 0,
        decreases combos.remaining(),
    {
        proof {
            combos.lemma_pending();
        }
        let ghost pending = combos.pending();
        let ghost old_best = best;
        match combos.next() {
            None => {
                match best {
                    Some(b) => {
                        return b;
                    },
                    None => {
                        return unreached();
                    },
                }
            },
            Some(v) => {
                let ghost sel = pending->Some_0;
                proof {
                    crate::special_card::lemma_picked_cards(cards, sel, v@);
                    assert forall|i: int| 0 <= i < v@.len() implies (#[trigger] v@[i]).valid() by {
                        assert(0 <= sel[i] < n);
                        assert(v@[i] == cards[sel[i]]);
                    }
                }
                let chosen = CardTuple::from_vec(v);
                let s = best_hand(chosen, community, hand_size, rules);
                let better = match best {
                    Some(b) => s.beats(&b),
                    None => true,
                };
                proof {
                    if old_best is Some {
                        lemma_key_order_total(s.key(), old_best->Some_0.key(), s.key());
                    }
                    lemma_key_order_total(s.key(), s.key(), s.key());
                }
                if better {
                    best = Some(s);
                    proof {
                        wit_sel = sel;
                    }
                }
                proof {
                    let next = combos.pending();
                    let now = best->Some_0;
                    assert forall|u: Seq<int>, k: StrengthKey|
                        u.len() == p && #[trigger] valid_selection(n, false, u) && (next matches Some(t)
                            ==> lex_less(u, t)) && #[trigger] is_best_hand(
                            pick(cards, u),
                            community@,
                            hs,
                            rules@,
                            k,
                        ) implies best is Some && key_order(k, now.key()) <= 0 by {
                        lemma_walk_covers(n, false, sel, next, u);
                        if u == sel {
                            lemma_best_hand_unique(chosen@, community@, hs, rules@, k, s.key());
                            lemma_key_order_total(k, s.key(), now.key());
                        } else {
                            assert(old_best is Some && key_order(k, old_best->Some_0.key()) <= 0);
                            lemma_key_order_total(k, old_best->Some_0.key(), now.key());
                        }
                    }
                }
            },
        }
    }
}

/// Cards make one best hand only.
pub proof fn lemma_best_hand_unique(
    hand: Seq<Card>,
    community: Seq<Card>,
    hand_size: nat,
    rules: Seq<SpecialCard>,
    a: StrengthKey,
    b: StrengthKey,
)
    requires
        is_best_hand(hand, community, hand_size, rules, a),
        is_best_hand(hand, community, hand_size, rules, b),
    ensures
        a == b,
{
    if !holds_winner(hand, rules) {
        let all = hand + community;
        let p = cards_in_hand(all.len(), hand_size);
        let ha = choose|h: Seq<Card>| #[trigger]
            is_hand_play(all, p, rules, h) && a == classify_key(h, hand_size);
        let hb = choose|h: Seq<Card>| #[trigger]
            is_hand_play(all, p, rules, h) && b == classify_key(h, hand_size);
        assert(key_order(a, b) <= 0);
        assert(key_order(b, a) <= 0);
        lemma_key_order_total(a, b, a);
    }
}

} // verus!
