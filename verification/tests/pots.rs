use pokerrs::bitcard::CardTuple;
use pokerrs::card::{standard_deck, Card, Suit, NUM_RANKS};
use pokerrs::game::{five_card_stud, omaha_hold_em, Chips, Facing, PlayerRole};
use pokerrs::gamestate::{CardState, HandState, PlayerState};
use pokerrs::card::Kind;
use pokerrs::pots::{calc_subpots, calc_winners, split_pot, Subpot, Winners};
use pokerrs::strength::best_hand_use_from_hand;
use std::collections::HashMap;

fn player(total_bet: Chips, folded: bool) -> PlayerState {
    PlayerState { chips: 0, hand: Vec::new(), folded, total_bet }
}

fn make_test_calc_winners_state(players: Vec<PlayerState>) -> HandState {
    HandState {
        deck: standard_deck(),
        rounds: Vec::new(),
        cur_round: None,
        players,
        community_cards: CardTuple::new(),
        pending_bet: None,
    }
}

#[test]
fn test_calc_subpots_simple() {
    let state = make_test_calc_winners_state(vec![player(17, false), player(17, false)]);
    let result = calc_subpots(&state);
    let expected = vec![Subpot { chips: 34, players: vec![0, 1] }];
    assert!(result == expected, "{:?} != {:?}", result, expected);
}

#[test]
fn test_calc_subpots_simple_fold() {
    let state = make_test_calc_winners_state(vec![player(17, false), player(17, true)]);
    let result = calc_subpots(&state);
    let expected = vec![Subpot { chips: 34, players: vec![0] }];
    assert!(result == expected, "{:?} != {:?}", result, expected);
}

#[test]
fn test_calc_subpots_all_in() {
    let state = make_test_calc_winners_state(vec![
        player(17, false),
        player(17, false),
        player(5, false),
    ]);
    let result = calc_subpots(&state);
    let expected = vec![
        Subpot { chips: 15, players: vec![0, 1, 2] },
        Subpot { chips: 24, players: vec![0, 1] },
    ];
    assert!(result == expected, "{:?} != {:?}", result, expected);
}

#[test]
fn test_calc_subpots_fold() {
    let state =
        make_test_calc_winners_state(vec![player(8, true), player(17, false), player(17, false)]);
    let result = calc_subpots(&state);
    let expected = vec![Subpot { chips: 42, players: vec![1, 2] }];
    assert!(result == expected, "{:?} != {:?}", result, expected);
}

#[test]
fn test_calc_subpots_fold_all_in() {
    let state = make_test_calc_winners_state(vec![
        player(17, false),
        player(8, true),
        player(12, false),
        player(17, false),
    ]);
    let result = calc_subpots(&state);
    let expected = vec![
        Subpot { chips: 44, players: vec![0, 2, 3] },
        Subpot { chips: 10, players: vec![0, 3] },
    ];
    assert!(result == expected, "{:?} != {:?}", result, expected);
}

#[test]
fn test_split_pot() {
    let players = vec![0, 2, 3];
    let pot = 33;
    let result = split_pot(&players, pot);
    let expected = vec![(0, 11), (2, 11), (3, 11)];
    assert!(result == expected, "{:?} != {:?}", result, expected);
}

#[test]
fn test_split_pot_uneven() {
    let players = vec![0, 2, 3];
    let pot = 35;
    let result = split_pot(&players, pot);
    let expected = vec![(0, 12), (2, 12), (3, 11)];
    assert!(result == expected, "{:?} != {:?}", result, expected);
}

fn make_cards(ts: Vec<(usize, usize)>) -> Vec<CardState> {
    ts.into_iter()
        .map(|(rank, suit)| CardState {
            card: Card { rank, suit: Suit(suit) },
            facing: Facing::FaceDown,
        })
        .collect()
}

fn with_hand(total_bet: Chips, folded: bool, hand: Vec<(usize, usize)>) -> PlayerState {
    PlayerState { chips: 0, hand: make_cards(hand), folded, total_bet }
}

fn stud_players(first_hand: Vec<(usize, usize)>) -> Vec<PlayerState> {
    vec![
        with_hand(17, false, first_hand),
        with_hand(8, true, vec![(3, 2), (1, 2), (5, 0), (9, 3), (7, 2)]),
        with_hand(12, false, vec![(8, 3), (7, 3), (6, 3), (5, 3), (4, 3)]),
        with_hand(17, false, vec![(12, 0), (12, 1), (9, 1), (12, 3), (12, 2)]),
    ]
}

#[test]
fn test_calc_winners() {
    let players = stud_players(vec![(3, 0), (3, 1), (0, 0), (9, 2), (1, 0)]);
    let state = make_test_calc_winners_state(players);
    let result = calc_winners(&five_card_stud(), &state, &vec![]).totals();
    let expected: HashMap<PlayerRole, Chips> = vec![(2, 44), (3, 10)].into_iter().collect();
    assert!(result == expected, "{:?} != {:?}", result, expected);

    let players = stud_players(vec![(0, 0), (0, 1), (0, 2), (0, 3), (1, 0)]);
    let state = make_test_calc_winners_state(players);
    let result = calc_winners(&five_card_stud(), &state, &vec![]).totals();
    let expected: HashMap<PlayerRole, Chips> = vec![(2, 44), (0, 10)].into_iter().collect();
    assert!(result == expected, "{:?} != {:?}", result, expected);
}

fn omaha_players(first_hand: Vec<(usize, usize)>) -> Vec<PlayerState> {
    vec![
        with_hand(17, false, first_hand),
        with_hand(8, true, vec![(3, 2), (1, 2), (5, 0), (9, 3)]),
        with_hand(12, false, vec![(8, 3), (7, 3), (6, 3), (5, 3)]),
        with_hand(17, false, vec![(12, 0), (12, 1), (9, 1), (12, 3)]),
    ]
}

#[test]
fn test_calc_winners_omaha() {
    let community = make_cards(vec![(1, 1), (0, 2), (3, 3), (7, 0)]);
    let players = omaha_players(vec![(0, 3), (9, 1), (0, 2), (9, 3), (1, 0)]);
    let mut state = make_test_calc_winners_state(players);
    state.community_cards = CardTuple::from_vec(community.into_iter().map(|cs| cs.card).collect());
    let result = calc_winners(&omaha_hold_em(), &state, &vec![]).totals();
    let expected: HashMap<PlayerRole, Chips> = vec![(0, 54)].into_iter().collect();
    assert!(result == expected, "{:?} != {:?}", result, expected);
}

#[test]
fn test_calc_winners_omaha_2() {
    let players =
        omaha_players(vec![(2, 2), (NUM_RANKS - 1, 1), (NUM_RANKS - 2, 2), (0, 2)]);
    let community = make_cards(vec![(0, 1), (4, 2), (10, 3), (9, 0), (10, 0)]);
    let community_cards = CardTuple::from_vec(community.iter().map(|cs| cs.card).collect());

    let hand = CardTuple::from_vec(players[0].hand.iter().map(|cs| cs.card).collect());
    let strength = best_hand_use_from_hand(2, hand, community_cards, 5, &vec![]);
    assert!(strength.kind == Kind::Straight(NUM_RANKS), "{:?}", strength.kind);
    let mut state = make_test_calc_winners_state(players);
    state.community_cards = community_cards;
    let result = calc_winners(&omaha_hold_em(), &state, &vec![]).totals();
    let expected: HashMap<PlayerRole, Chips> = vec![(0, 54)].into_iter().collect();
    assert!(result == expected, "{:?} != {:?}", result, expected);
}

#[test]
fn split_pot_gives_the_remainder_to_the_first() {
    let seats = vec!["ann", "bob", "cy"];
    assert_eq!(split_pot(&seats, 35), vec![("ann", 12), ("bob", 12), ("cy", 11)]);
    assert_eq!(split_pot(&seats, 0), vec![("ann", 0), ("bob", 0), ("cy", 0)]);
    assert_eq!(split_pot(&seats, 2), vec![("ann", 1), ("bob", 1), ("cy", 0)]);
    assert_eq!(split_pot(&vec![7usize], 35), vec![(7, 35)]);
}

#[test]
fn subpots_hold_all_that_was_bet() {
    let bets: Vec<(Chips, bool)> =
        vec![(40, false), (15, true), (40, false), (0, false), (25, false), (25, true)];
    let state = make_test_calc_winners_state(bets.iter().map(|&(b, f)| player(b, f)).collect());
    let pots = calc_subpots(&state);
    let total: Chips = pots.iter().map(|p| p.chips).sum();
    assert_eq!(total, 145);
    assert_eq!(
        pots,
        vec![
            Subpot { chips: 0, players: vec![0, 2, 3, 4] },
            Subpot { chips: 115, players: vec![0, 2, 4] },
            Subpot { chips: 30, players: vec![0, 2] },
        ]
    );
}

#[test]
fn chips_bet_above_every_live_player_are_in_the_last_subpot() {
    let state = make_test_calc_winners_state(vec![player(10, true), player(5, false)]);
    let pots = calc_subpots(&state);
    assert_eq!(pots, vec![Subpot { chips: 15, players: vec![1] }]);
    let three = make_test_calc_winners_state(vec![
        player(20, true),
        player(4, false),
        player(10, false),
        player(7, true),
    ]);
    assert_eq!(
        calc_subpots(&three),
        vec![
            Subpot { chips: 16, players: vec![1, 2] },
            Subpot { chips: 25, players: vec![2] },
        ]
    );
    let nobody = make_test_calc_winners_state(vec![player(10, true), player(5, true)]);
    assert_eq!(calc_subpots(&nobody), vec![]);
}

#[test]
fn totals_add_the_cuts_of_every_pot() {
    let winners = Winners {
        winners_by_pot: vec![
            (Subpot { chips: 35, players: vec![0, 1, 2] }, vec![0, 1, 2]),
            (Subpot { chips: 10, players: vec![0, 2] }, vec![2]),
        ],
    };
    let totals = winners.totals();
    let expected: HashMap<PlayerRole, Chips> = vec![(0, 12), (1, 12), (2, 21)].into_iter().collect();
    assert_eq!(totals, expected);
    let names = vec!["ann".to_string(), "bob".to_string(), "cy".to_string()];
    let named = winners.convert(&names);
    assert_eq!(
        named,
        Winners {
            winners_by_pot: vec![
                (
                    Subpot { chips: 35, players: names.clone() },
                    names.clone()
                ),
                (
                    Subpot { chips: 10, players: vec!["ann".to_string(), "cy".to_string()] },
                    vec!["cy".to_string()]
                ),
            ],
        }
    );
    assert_eq!(
        winners.winners_by_pot[1].0.convert(&names),
        Subpot { chips: 10, players: vec!["ann".to_string(), "cy".to_string()] }
    );
}

#[test]
fn tied_hands_split_a_pot_in_seat_order() {
    let players = vec![
        with_hand(10, false, vec![(3, 0), (3, 1), (5, 0), (9, 2), (1, 0)]),
        with_hand(10, false, vec![(3, 2), (3, 3), (5, 1), (9, 3), (1, 1)]),
        with_hand(11, false, vec![(2, 2), (4, 3), (6, 1), (8, 3), (11, 1)]),
    ];
    let state = make_test_calc_winners_state(players);
    let winners = calc_winners(&five_card_stud(), &state, &vec![]);
    assert_eq!(
        winners,
        Winners {
            winners_by_pot: vec![
                (Subpot { chips: 30, players: vec![0, 1, 2] }, vec![0, 1]),
                (Subpot { chips: 1, players: vec![2] }, vec![2]),
            ],
        }
    );
}

#[test]
fn a_pot_is_split_among_names_too() {
    let names = vec!["ann".to_string(), "bob".to_string()];
    assert_eq!(
        split_pot(&names, 7),
        vec![("ann".to_string(), 4), ("bob".to_string(), 3)]
    );
}
