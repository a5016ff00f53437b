use pokerrs::bitcard::{CardSet, CardTuple, RankTuple};
use pokerrs::card::{standard_deck, Card, Suit, NUM_RANKS, NUM_SUITS};

#[test]
fn test_rank_tuple() {
    let mut rt = RankTuple::new();
    assert!(rt.len() == 0);
    assert!(rt.last().is_none());
    assert!(rt.first().is_none());

    rt.push(3);
    assert!(rt.len() == 1);
    assert!(rt.get(0) == 3, "{} != {}", rt.get(0), 3);
    assert!(rt.first() == Some(3));
    assert!(rt.last() == Some(3));

    rt.push(7);
    assert!(rt.len() == 2);
    assert!(rt.get(0) == 3, "{} != {}", rt.get(0), 3);
    assert!(rt.get(1) == 7);
    assert!(rt.first() == Some(3));
    assert!(rt.last() == Some(7));

    assert!(rt.to_vec() == vec![3, 7]);

    rt.push(NUM_RANKS);
    assert!(rt.len() == 3);
    assert!(rt.get(0) == 3, "{} != {}", rt.get(0), 3);
    assert!(rt.get(1) == 7);
    assert!(rt.get(2) == NUM_RANKS);
    assert!(rt.first() == Some(3));
    assert!(rt.last() == Some(NUM_RANKS));
    assert!(rt.to_vec() == vec![3, 7, NUM_RANKS]);

    let expected = vec![3, 5, 9, 0, 2, NUM_RANKS];
    let result = RankTuple::from_vec(expected.clone()).to_vec();
    assert!(result == expected, "{:?}", result);
}

fn cards_by_suit_cycle(ranks: Vec<usize>) -> CardTuple {
    let mut cards = Vec::new();
    for (i, rank) in ranks.into_iter().enumerate() {
        cards.push(Card { rank, suit: Suit(i % 4) });
    }
    CardTuple::from_vec(cards)
}

#[test]
fn test_card_tuple() {
    let mut ct = CardTuple::new();

    assert!(ct.len() == 0);

    ct.push(Card { rank: 4, suit: Suit(2) });

    assert!(ct.len() == 1);
    assert!(ct.get(0) == Card { rank: 4, suit: Suit(2) });

    ct.push(Card { rank: NUM_RANKS, suit: Suit(1) });
    assert!(ct.len() == 2);
    assert!(ct.get(0) == Card { rank: 4, suit: Suit(2) });
    assert!(ct.get(1) == Card { rank: NUM_RANKS, suit: Suit(1) });

    let cards = cards_by_suit_cycle(vec![4, 2, 1, 4, 9]);
    assert!(cards.len() == 5);
    assert!(cards.get(0) == Card { rank: 4, suit: Suit(0) });
    assert!(cards.get(1) == Card { rank: 2, suit: Suit(1) });
    assert!(cards.get(2) == Card { rank: 1, suit: Suit(2) });
    assert!(cards.get(3) == Card { rank: 4, suit: Suit(3) });
    assert!(cards.get(4) == Card { rank: 9, suit: Suit(0) });
    let result = cards.to_vec();
    assert!(
        result
            == vec![
                Card { rank: 4, suit: Suit(0) },
                Card { rank: 2, suit: Suit(1) },
                Card { rank: 1, suit: Suit(2) },
                Card { rank: 4, suit: Suit(3) },
                Card { rank: 9, suit: Suit(0) },
            ]
    );

    let ranks: RankTuple = cards.ranks();
    assert!(ranks.len() == 5);
    assert!(ranks.get(0) == 4, "{:?}", ranks);
    assert!(ranks.get(1) == 2);
    assert!(ranks.get(2) == 1);
    assert!(ranks.get(3) == 4);
    assert!(ranks.get(4) == 9);
}

#[test]
fn test_card_set() {
    let mut cs = CardSet::new();

    assert!(cs.to_vec().len() == 0);

    assert!(cs.insert(Card { rank: 4, suit: Suit(2) }));
    let result = cs.to_vec();
    assert!(result == vec![Card { rank: 4, suit: Suit(2) }], "{:?}", result);
    assert!(!cs.insert(Card { rank: 4, suit: Suit(2) }));
    let result = cs.to_vec();
    assert!(result == vec![Card { rank: 4, suit: Suit(2) }], "{:?}", result);

    assert!(cs.insert(Card { rank: 9, suit: Suit(1) }));
    let result = cs.to_vec();
    assert!(
        result == vec![Card { rank: 9, suit: Suit(1) }, Card { rank: 4, suit: Suit(2) }],
        "{:?}",
        result
    );
    assert!(!cs.insert(Card { rank: 9, suit: Suit(1) }));
    let result = cs.to_vec();
    assert!(
        result == vec![Card { rank: 9, suit: Suit(1) }, Card { rank: 4, suit: Suit(2) }],
        "{:?}",
        result
    );
}

#[test]
fn test_standard_deck() {
    let deck = standard_deck();
    assert_eq!(deck.raw.len(), 52);
    for rank in 0..NUM_RANKS {
        assert_eq!(deck.raw.iter().filter(|x| x.rank == rank).count(), NUM_SUITS)
    }
    for suit in 0..NUM_SUITS {
        assert_eq!(deck.raw.iter().filter(|x| x.suit == Suit(suit)).count(), NUM_RANKS)
    }
}

#[test]
fn card_tuple_round_trip_keeps_order() {
    let pushed = vec![
        Card { rank: 0, suit: Suit(0) },
        Card { rank: 0, suit: Suit(1) },
        Card { rank: 0, suit: Suit(2) },
        Card { rank: 0, suit: Suit(3) },
        Card { rank: 1, suit: Suit(0) },
    ];
    let mut ct = CardTuple::new();
    for c in &pushed {
        ct.push(*c);
    }
    for (i, c) in pushed.iter().enumerate() {
        assert_eq!(ct.get(i), *c);
    }
    let mut it = ct.iter();
    let mut seen = Vec::new();
    while let Some(c) = it.next() {
        seen.push(c);
    }
    assert_eq!(seen, pushed);
}

#[test]
fn card_tuple_holds_nine_cards() {
    let mut ct = CardTuple::new();
    for i in 0..9 {
        ct.push(Card { rank: 13 - i, suit: Suit(i % 4) });
    }
    assert_eq!(ct.len(), 9);
    for i in 0..9 {
        assert_eq!(ct.get(i), Card { rank: 13 - i, suit: Suit(i % 4) });
    }
    let changed = ct.with_card(8, Card { rank: 2, suit: Suit(3) });
    assert_eq!(changed.get(8), Card { rank: 2, suit: Suit(3) });
    assert_eq!(changed.get(7), ct.get(7));
    let joined = CardTuple::new().concat(ct);
    assert_eq!(joined, ct);
}

#[test]
fn rank_tuple_holds_sixteen_ranks_and_masks() {
    let mut rt = RankTuple::new();
    for i in 0..16 {
        rt.push(i);
    }
    assert_eq!(rt.len(), 16);
    assert_eq!(rt.to_vec(), (0..16).collect::<Vec<usize>>());
    let mut masked = RankTuple::new();
    masked.push(16 + 5);
    assert_eq!(masked.get(0), 5);
    rt.clear();
    assert_eq!(rt.len(), 0);
    assert_eq!(rt, RankTuple::new());
}

#[test]
fn rank_tuple_sort_is_ascending_and_idempotent() {
    let mut rt = RankTuple::from_vec(vec![9, 3, 13, 0, 3, 7, 0, 12]);
    rt.sort();
    assert_eq!(rt.to_vec(), vec![0, 0, 3, 3, 7, 9, 12, 13]);
    let once = rt;
    rt.sort();
    assert_eq!(rt, once);
    let mut empty = RankTuple::new();
    empty.sort();
    assert_eq!(empty.len(), 0);
}

#[test]
fn rank_tuple_iter_reads_both_ends() {
    let rt = RankTuple::from_vec(vec![2, 5, 8, 11]);
    let mut it = rt.iter();
    assert_eq!(it.len(), 4);
    assert_eq!(it.next(), Some(2));
    assert_eq!(it.next_back(), Some(11));
    assert_eq!(it.len(), 2);
    assert_eq!(it.next_back(), Some(8));
    assert_eq!(it.next(), Some(5));
    assert_eq!(it.next(), None);
    assert_eq!(it.next_back(), None);
    let mut none = RankTuple::new().iter();
    assert_eq!(none.len(), 0);
    assert_eq!(none.next(), None);
    let mut one = RankTuple::from_vec(vec![4]).iter();
    assert_eq!(one.next_back(), Some(4));
    assert_eq!(one.next(), None);
}

#[test]
fn card_set_remove_and_order() {
    let mut cs = CardSet::from_vec(standard_deck().raw);
    assert_eq!(cs.to_vec(), standard_deck().raw);
    assert!(cs.remove(Card { rank: 0, suit: Suit(0) }));
    assert!(!cs.remove(Card { rank: 0, suit: Suit(0) }));
    assert!(!cs.contains(Card { rank: 0, suit: Suit(0) }));
    assert!(cs.contains(Card { rank: 12, suit: Suit(3) }));
    assert!(cs.contains_index(51));
    assert!(!cs.contains_index(0));
    assert_eq!(cs.to_vec().len(), 51);
    assert_eq!(CardSet::card_from_index(14), Card { rank: 1, suit: Suit(1) });
    let mut it = cs.iter();
    assert_eq!(it.next(), Some(Card { rank: 1, suit: Suit(0) }));
}

#[test]
fn a_card_is_made_of_a_rank_and_a_suit() {
    let king_of_clubs: Card = (12, 3).into();
    assert_eq!(king_of_clubs, Card { rank: 12, suit: Suit(3) });
    assert_eq!(Card::from((0, 1)), Card { rank: 0, suit: Suit(1) });
}
