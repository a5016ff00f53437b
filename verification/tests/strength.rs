use pokerrs::bitcard::{CardTuple, RankTuple};
use pokerrs::card::{Card, Kind, Suit, NUM_RANKS};
use pokerrs::special_card::{wild_combinations, SpecialCard, SpecialCardGroup, SpecialCardType};
use pokerrs::strength::{
    best_hand, best_hand_use_from_hand, explode_aces, order_kinds, order_ranks, HandStrength,
};

fn spades(ranks: Vec<usize>) -> CardTuple {
    CardTuple::from_vec(ranks.into_iter().map(|rank| Card { rank, suit: Suit(0) }).collect())
}

fn mixed(ranks: Vec<usize>) -> CardTuple {
    CardTuple::from_vec(
        ranks.into_iter().enumerate().map(|(i, rank)| Card { rank, suit: Suit(i % 4) }).collect(),
    )
}

fn kickers(ranks: Vec<usize>) -> RankTuple {
    RankTuple::from_vec(ranks)
}

#[test]
fn test_explode_aces_do_nothing() {
    let cards = spades(vec![1, 2, 3, NUM_RANKS - 1, 9]);
    let result = explode_aces(cards);
    assert!(result == cards, "{:?} != {:?}", result, cards);
}

#[test]
fn test_explode_aces_single_ace() {
    let cards = spades(vec![1, 0, 3, NUM_RANKS - 1, 9]);
    let mut expected = cards.clone();
    expected.push(Card { rank: NUM_RANKS, suit: Suit(0) });
    let result = explode_aces(cards);
    assert!(result == expected, "{:?} != {:?}", result, expected);
}

#[test]
fn test_explode_aces_single_ace_first() {
    let cards = spades(vec![0, 1, 3, NUM_RANKS - 1, 9]);
    let mut expected = cards.clone();
    expected.push(Card { rank: NUM_RANKS, suit: Suit(0) });
    let result = explode_aces(cards);
    assert!(result == expected, "{:?} != {:?}", result, expected);
}

#[test]
fn test_explode_aces_single_ace_last() {
    let cards = spades(vec![2, 1, 3, NUM_RANKS - 1, 0]);
    let mut expected = cards.clone();
    expected.push(Card { rank: NUM_RANKS, suit: Suit(0) });
    let result = explode_aces(cards);
    assert!(result == expected, "{:?} != {:?}", result, expected);
}

#[test]
fn test_explode_aces_two_aces() {
    let cards = spades(vec![0, 1, 0, NUM_RANKS - 1, 7]);
    let mut expected = cards.clone();
    expected.push(Card { rank: NUM_RANKS, suit: Suit(0) });
    expected.push(Card { rank: NUM_RANKS, suit: Suit(0) });
    let result = explode_aces(cards);
    assert!(result == expected, "{:?} != {:?}", result, expected);
}

#[test]
fn test_explode_aces_two_aces_adjacent() {
    let cards = spades(vec![0, 0, 2, NUM_RANKS - 1, 7]);
    let mut expected = cards.clone();
    expected.push(Card { rank: NUM_RANKS, suit: Suit(0) });
    expected.push(Card { rank: NUM_RANKS, suit: Suit(0) });
    let result = explode_aces(cards);
    assert!(result == expected, "{:?} != {:?}", result, expected);
}

#[test]
fn test_explode_aces_four_aces() {
    let cards = spades(vec![0, 0, 0, NUM_RANKS - 1, 0]);
    let mut expected = cards.clone();
    for _ in 0..4 {
        expected.push(Card { rank: NUM_RANKS, suit: Suit(0) });
    }
    let result = explode_aces(cards);
    assert!(result == expected, "{:?} != {:?}", result, expected);
}

#[test]
fn test_best_hand_high_card() {
    let cards = mixed(vec![4, 2, 7, 5, 9]);
    let result = best_hand(cards, CardTuple::new(), 5, &vec![]);
    let expected = HandStrength { kind: Kind::HighCard(9), kickers: kickers(vec![7, 5, 4, 2]) };
    assert!(result == expected, "{:?} != {:?}", result, expected);
}

#[test]
fn test_best_hand_high_card_ace() {
    let cards = mixed(vec![4, 2, 0, 5, 9]);
    let result = best_hand(cards, CardTuple::new(), 5, &vec![]);
    let expected =
        HandStrength { kind: Kind::HighCard(NUM_RANKS), kickers: kickers(vec![9, 5, 4, 2]) };
    assert!(result == expected, "{:?} != {:?}", result, expected);
}

#[test]
fn test_best_hand_pair() {
    let cards = mixed(vec![4, 2, 1, 4, 9]);
    let result = best_hand(cards, CardTuple::new(), 5, &vec![]);
    let expected = HandStrength { kind: Kind::Pair(4), kickers: kickers(vec![9, 2, 1]) };
    assert!(result == expected, "{:?} != {:?}", result, expected);
}

#[test]
fn test_best_hand_pair_ace_not_in_pair() {
    let cards = mixed(vec![4, 0, 1, 4, 9]);
    let result = best_hand(cards, CardTuple::new(), 5, &vec![]);
    let expected = HandStrength { kind: Kind::Pair(4), kickers: kickers(vec![NUM_RANKS, 9, 1]) };
    assert!(result == expected, "{:?} != {:?}", result, expected);
}

#[test]
fn test_best_hand_pair_ace_in_pair() {
    let cards = mixed(vec![0, 2, 1, 0, 4]);
    let result = best_hand(cards, CardTuple::new(), 5, &vec![]);
    let expected = HandStrength { kind: Kind::Pair(NUM_RANKS), kickers: kickers(vec![4, 2, 1]) };
    assert!(result == expected, "{:?} != {:?}", result, expected);
}

#[test]
fn test_best_hand_two_pair() {
    let cards = mixed(vec![4, 2, 1, 4, 2]);
    let result = best_hand(cards, CardTuple::new(), 5, &vec![]);
    let expected =
        HandStrength { kind: Kind::TwoPair { high: 4, low: 2 }, kickers: kickers(vec![1]) };
    assert!(result == expected, "{:?} != {:?}", result, expected);
}

#[test]
fn test_best_hand_two_pair_ace_not_in_two_pair() {
    let cards = mixed(vec![4, 2, 0, 4, 2]);
    let result = best_hand(cards, CardTuple::new(), 5, &vec![]);
    let expected = HandStrength {
        kind: Kind::TwoPair { high: 4, low: 2 },
        kickers: kickers(vec![NUM_RANKS]),
    };
    assert!(result == expected, "{:?} != {:?}", result, expected);
}

#[test]
fn test_best_hand_two_pair_ace_in_two_pair() {
    let cards = mixed(vec![4, 0, 1, 4, 0]);
    let result = best_hand(cards, CardTuple::new(), 5, &vec![]);
    let expected = HandStrength {
        kind: Kind::TwoPair { high: NUM_RANKS, low: 4 },
        kickers: kickers(vec![1]),
    };
    assert!(result == expected, "{:?} != {:?}", result, expected);
}

#[test]
fn test_best_hand_three_kind() {
    let cards = mixed(vec![4, 4, 1, 4, 2]);
    let result = best_hand(cards, CardTuple::new(), 5, &vec![]);
    let expected = HandStrength { kind: Kind::ThreeKind(4), kickers: kickers(vec![2, 1]) };
    assert!(result == expected, "{:?} != {:?}", result, expected);
}

#[test]
fn test_best_hand_three_kind_ace_not_in_three_kind() {
    let cards = mixed(vec![4, 4, 0, 4, 2]);
    let result = best_hand(cards, CardTuple::new(), 5, &vec![]);
    let expected = HandStrength { kind: Kind::ThreeKind(4), kickers: kickers(vec![NUM_RANKS, 2]) };
    assert!(result == expected, "{:?} != {:?}", result, expected);
}

#[test]
fn test_best_hand_three_kind_ace_in_three_kind() {
    let cards = mixed(vec![0, 0, 1, 0, 4]);
    let result = best_hand(cards, CardTuple::new(), 5, &vec![]);
    let expected = HandStrength { kind: Kind::ThreeKind(NUM_RANKS), kickers: kickers(vec![4, 1]) };
    assert!(result == expected, "{:?} != {:?}", result, expected);
}

fn twos_wild() -> Vec<SpecialCard> {
    (0..4)
        .map(|s| SpecialCard {
            wtype: SpecialCardType::Wild,
            card: Card { rank: 1, suit: Suit(s) },
        })
        .collect()
}

#[test]
fn test_best_hand_wilds() {
    let cards = mixed(vec![1, 0, 1, 0, 4]);
    let result = best_hand(cards, CardTuple::new(), 5, &twos_wild());
    let expected = HandStrength { kind: Kind::FourKind(NUM_RANKS), kickers: kickers(vec![4]) };
    assert!(result == expected, "{:?} != {:?}", result, expected);
}

#[test]
fn wild_twos_with_community_card_make_four_aces() {
    let hand = CardTuple::from_vec(vec![
        Card { rank: 1, suit: Suit(1) },
        Card { rank: 0, suit: Suit(2) },
        Card { rank: 1, suit: Suit(2) },
        Card { rank: 0, suit: Suit(3) },
    ]);
    let community = CardTuple::from_vec(vec![Card { rank: 3, suit: Suit(3) }]);
    let result = best_hand(hand, community, 5, &twos_wild());
    assert_eq!(result.kind, Kind::FourKind(NUM_RANKS));
    assert_eq!(result.kickers, kickers(vec![3]));
    assert_eq!(SpecialCardGroup::all()[0].cards, twos_wild());
}

#[test]
fn classify_names_every_kind() {
    let flush_cards = spades(vec![2, 4, 6, 8, 10]);
    assert_eq!(
        HandStrength::new(flush_cards, 5),
        HandStrength {
            kind: Kind::Flush(kickers(vec![10, 8, 6, 4, 2])),
            kickers: RankTuple::new()
        }
    );
    assert_eq!(
        HandStrength::new(spades(vec![5, 4, 3, 2, 6]), 5),
        HandStrength { kind: Kind::StraightFlush(6), kickers: RankTuple::new() }
    );
    assert_eq!(
        HandStrength::new(mixed(vec![5, 4, 3, 2, 6]), 5),
        HandStrength { kind: Kind::Straight(6), kickers: RankTuple::new() }
    );
    assert_eq!(
        HandStrength::new(mixed(vec![0, 1, 2, 3, 4]), 5),
        HandStrength { kind: Kind::Straight(4), kickers: RankTuple::new() }
    );
    assert_eq!(
        HandStrength::new(mixed(vec![7, 7, 7, 7, 3]), 5),
        HandStrength { kind: Kind::FourKind(7), kickers: kickers(vec![3]) }
    );
    assert_eq!(
        HandStrength::new(mixed(vec![7, 7, 7, 3, 3]), 5),
        HandStrength { kind: Kind::FullHouse { high: 7, low: 3 }, kickers: RankTuple::new() }
    );
    assert_eq!(
        HandStrength::new(mixed(vec![7, 7, 7, 3, 2]), 5),
        HandStrength { kind: Kind::ThreeKind(7), kickers: kickers(vec![3, 2]) }
    );
    assert_eq!(
        HandStrength::new(mixed(vec![7, 7, 9, 3, 3]), 5),
        HandStrength { kind: Kind::TwoPair { high: 7, low: 3 }, kickers: kickers(vec![9]) }
    );
    assert_eq!(
        HandStrength::new(mixed(vec![7, 12, 9, 3, 3]), 5),
        HandStrength { kind: Kind::Pair(3), kickers: kickers(vec![12, 9, 7]) }
    );
    assert_eq!(
        HandStrength::new(mixed(vec![7, 12, 9, 3, 2]), 5),
        HandStrength { kind: Kind::HighCard(12), kickers: kickers(vec![9, 7, 3, 2]) }
    );
    assert_eq!(
        HandStrength::new(mixed(vec![12, 11]), 5),
        HandStrength { kind: Kind::HighCard(12), kickers: kickers(vec![11]) }
    );
}

#[test]
fn kinds_rank_in_the_order_of_the_game() {
    let ladder = vec![
        Kind::HighCard(13),
        Kind::Pair(0),
        Kind::TwoPair { high: 1, low: 0 },
        Kind::ThreeKind(0),
        Kind::Straight(4),
        Kind::Flush(kickers(vec![5, 3, 2, 1, 0])),
        Kind::FullHouse { high: 1, low: 0 },
        Kind::FourKind(0),
        Kind::StraightFlush(4),
        Kind::WinsItAll,
    ];
    for i in 0..ladder.len() {
        assert_eq!(ladder[i].position() as usize, i);
        for j in 0..ladder.len() {
            let expected = if i < j {
                -1
            } else if i > j {
                1
            } else {
                0
            };
            assert_eq!(order_kinds(&ladder[i], &ladder[j]), expected, "{} {}", i, j);
        }
    }
    assert_eq!(order_kinds(&Kind::Pair(3), &Kind::Pair(9)), -1);
    assert_eq!(
        order_kinds(&Kind::TwoPair { high: 9, low: 3 }, &Kind::TwoPair { high: 9, low: 2 }),
        1
    );
    assert_eq!(order_kinds(&Kind::WinsItAll, &Kind::WinsItAll), 0);
}

#[test]
fn kickers_decide_highest_first_and_suits_never() {
    let a = HandStrength { kind: Kind::Pair(4), kickers: kickers(vec![12, 3, 2]) };
    let b = HandStrength { kind: Kind::Pair(4), kickers: kickers(vec![11, 10, 9]) };
    assert!(a.beats(&b));
    assert!(!b.beats(&a));
    assert_eq!(a.order(&b), 1);
    assert_eq!(b.order(&a), -1);
    assert_eq!(order_ranks(&kickers(vec![5, 4]), &kickers(vec![5, 4, 1])), -1);
    assert_eq!(order_ranks(&kickers(vec![]), &kickers(vec![])), 0);
    let hearts = HandStrength::new(
        CardTuple::from_vec(vec![
            Card { rank: 4, suit: Suit(1) },
            Card { rank: 4, suit: Suit(2) },
            Card { rank: 9, suit: Suit(1) },
        ]),
        5,
    );
    let clubs = HandStrength::new(
        CardTuple::from_vec(vec![
            Card { rank: 4, suit: Suit(3) },
            Card { rank: 9, suit: Suit(3) },
            Card { rank: 4, suit: Suit(0) },
        ]),
        5,
    );
    assert!(hearts.ties(&clubs));
    assert_eq!(hearts, clubs);
}

#[test]
fn a_card_that_wins_it_all_beats_everything() {
    let rules = SpecialCardGroup::all().pop().unwrap().cards;
    let hand = CardTuple::from_vec(vec![
        Card { rank: 12, suit: Suit(2) },
        Card { rank: 3, suit: Suit(0) },
    ]);
    let other = spades(vec![8, 9, 10, 11, 12]);
    let mine = best_hand(hand, CardTuple::new(), 5, &rules);
    let theirs = best_hand(other, CardTuple::new(), 5, &rules);
    assert_eq!(mine, HandStrength { kind: Kind::WinsItAll, kickers: RankTuple::new() });
    assert_eq!(theirs.kind, Kind::StraightFlush(12));
    assert!(mine.beats(&theirs));
    assert!(mine.ties(&mine));
    let in_community = best_hand(other, hand, 5, &rules);
    assert!(in_community.kind != Kind::WinsItAll);
}

#[test]
fn best_hand_picks_the_best_five_of_seven() {
    let hand = CardTuple::from_vec(vec![
        Card { rank: 12, suit: Suit(1) },
        Card { rank: 11, suit: Suit(2) },
    ]);
    let community = CardTuple::from_vec(vec![
        Card { rank: 0, suit: Suit(1) },
        Card { rank: 4, suit: Suit(2) },
        Card { rank: 10, suit: Suit(3) },
        Card { rank: 9, suit: Suit(0) },
        Card { rank: 10, suit: Suit(0) },
    ]);
    let result = best_hand(hand, community, 5, &vec![]);
    assert_eq!(result.kind, Kind::Straight(NUM_RANKS));
    let whole = CardTuple::from_vec(vec![
        Card { rank: 2, suit: Suit(2) },
        Card { rank: 12, suit: Suit(1) },
        Card { rank: 11, suit: Suit(2) },
        Card { rank: 0, suit: Suit(2) },
    ]);
    let using_two = best_hand_use_from_hand(2, whole, community, 5, &vec![]);
    assert_eq!(using_two.kind, Kind::Straight(NUM_RANKS));
    let using_none = best_hand_use_from_hand(0, whole, community, 5, &vec![]);
    assert_eq!(using_none.kind, Kind::Pair(10));
}

#[test]
fn an_ace_is_low_or_high_but_not_both() {
    let wheel = mixed(vec![0, 1, 2, 3, 4]);
    assert_eq!(best_hand(wheel, CardTuple::new(), 5, &vec![]).kind, Kind::Straight(4));
    let broadway = mixed(vec![0, 12, 11, 10, 9]);
    assert_eq!(best_hand(broadway, CardTuple::new(), 5, &vec![]).kind, Kind::Straight(13));
    let round_the_corner = mixed(vec![11, 12, 0, 1, 2]);
    assert_eq!(
        best_hand(round_the_corner, CardTuple::new(), 5, &vec![]).kind,
        Kind::HighCard(13)
    );
}

#[test]
fn wild_combinations_lists_every_substitution() {
    let unwild = CardTuple::from_vec(vec![Card { rank: 5, suit: Suit(2) }]);
    let none = wild_combinations(unwild, 0);
    assert_eq!(none, vec![unwild]);
    let one = wild_combinations(unwild, 1);
    let added: Vec<Card> = one.iter().map(|h| h.get(1)).collect();
    assert_eq!(
        added,
        vec![
            Card { rank: 4, suit: Suit(2) },
            Card { rank: 5, suit: Suit(2) },
            Card { rank: 6, suit: Suit(2) },
        ]
    );
    for h in &one {
        assert_eq!(h.get(0), Card { rank: 5, suit: Suit(2) });
        assert_eq!(h.len(), 2);
    }
    let two = wild_combinations(unwild, 2);
    assert_eq!(two.len(), 15);
    for (i, a) in two.iter().enumerate() {
        for b in &two[..i] {
            assert_ne!(a, b);
        }
    }
    let king = CardTuple::from_vec(vec![Card { rank: 12, suit: Suit(1) }]);
    let round: Vec<usize> = wild_combinations(king, 1).iter().map(|h| h.get(1).rank).collect();
    assert_eq!(round, vec![0, 11, 12]);
    let all_wild = wild_combinations(CardTuple::new(), 2);
    assert_eq!(
        all_wild,
        vec![CardTuple::from_vec(vec![
            Card { rank: 0, suit: Suit(0) },
            Card { rank: 0, suit: Suit(0) }
        ])]
    );
}

#[test]
fn wild_cards_take_the_leading_suit_only() {
    let hand = CardTuple::from_vec(vec![
        Card { rank: 2, suit: Suit(0) },
        Card { rank: 4, suit: Suit(0) },
        Card { rank: 6, suit: Suit(1) },
        Card { rank: 8, suit: Suit(1) },
        Card { rank: 1, suit: Suit(3) },
    ]);
    let result = best_hand(hand, CardTuple::new(), 5, &twos_wild());
    assert_eq!(result.kind, Kind::Pair(8));
}

#[test]
fn a_wild_card_stands_for_no_rank_far_from_the_others() {
    let hand = CardTuple::from_vec(vec![
        Card { rank: 2, suit: Suit(1) },
        Card { rank: 4, suit: Suit(1) },
        Card { rank: 6, suit: Suit(1) },
        Card { rank: 8, suit: Suit(1) },
        Card { rank: 1, suit: Suit(0) },
    ]);
    let result = best_hand(hand, CardTuple::new(), 5, &twos_wild());
    assert_eq!(result.kind, Kind::Flush(kickers(vec![9, 8, 6, 4, 2])));
}

#[test]
fn two_hands_that_win_it_all_tie_whatever_else_they_hold() {
    let plain = HandStrength { kind: Kind::WinsItAll, kickers: RankTuple::new() };
    let loaded = HandStrength { kind: Kind::WinsItAll, kickers: kickers(vec![5]) };
    assert_eq!(loaded.order(&plain), 0);
    assert_eq!(plain.order(&loaded), 0);
    assert!(loaded.ties(&plain));
    assert!(!loaded.beats(&plain));
    assert!(!plain.beats(&loaded));
    assert!(!(loaded > plain));
    assert!(loaded >= plain && plain >= loaded);
    assert_eq!(loaded.partial_cmp(&plain), Some(std::cmp::Ordering::Equal));
    let best = HandStrength { kind: Kind::StraightFlush(13), kickers: RankTuple::new() };
    assert!(plain.beats(&best));
    assert!(plain > best);
}
