use pokerrs::bitcard::CardTuple;
use pokerrs::card::{standard_deck, Card, Suit, VecDeck};
use pokerrs::game::{
    five_card_draw, five_card_stud, texas_hold_em, BetResp, Chips, Facing, PokerVariant, Round,
};
use pokerrs::gamestate::{
    advance, apply_bet, apply_replace, collect_ante_from_players, collect_bets, next_player,
    show_cards, CardState, HandAction, HandState, PlayerState, RoundState,
};
use pokerrs::pots::{Subpot, Winners};
use pokerrs::special_card::SpecialRules;
use pokerrs::table::{AnteRule, Blind, TableRules};
use pokerrs::viewstate::{BetDiffKind, CardViewState, PokerGlobalViewDiff, PokerViewDiff};
use std::collections::HashMap;

fn ante_rules(ante: Chips) -> TableRules {
    TableRules { ante: AnteRule::Ante(ante), ante_name: "Ante".to_string(), min_bet: 2 }
}

fn blind_rules() -> TableRules {
    TableRules {
        ante: AnteRule::Blinds(vec![Blind { amount: 1 }, Blind { amount: 2 }]),
        ante_name: "Blind".to_string(),
        min_bet: 2,
    }
}

fn bet_round(starting_player: usize) -> PokerVariant {
    PokerVariant { rules: vec![Round::Bet { starting_player }], use_from_hand: 5 }
}

fn run_until_asked(
    state: &mut HandState,
    variant: &PokerVariant,
    rules: &TableRules,
    log: &mut Vec<PokerGlobalViewDiff<usize>>,
) -> HandAction {
    let special: SpecialRules = Vec::new();
    loop {
        assert!(state.ready(variant, rules));
        match advance(state, variant, rules, &special, log).unwrap() {
            HandAction::Continue => {}
            other => return other,
        }
    }
}

#[test]
fn next_player_goes_round_the_table() {
    assert_eq!(next_player(0, 3), 1);
    assert_eq!(next_player(1, 3), 2);
    assert_eq!(next_player(2, 3), 0);
    assert_eq!(next_player(0, 1), 0);
    assert_eq!(next_player(7, 3), 0);
}

#[test]
fn a_raise_and_a_call_end_the_round_after_two_answers() {
    let variant = bet_round(1);
    let rules = ante_rules(0);
    let mut state = HandState::new(bet_round(1), standard_deck(), &vec![100, 100]);
    let mut log = Vec::new();
    let mut answers = 0;

    let asked = run_until_asked(&mut state, &variant, &rules, &mut log);
    match asked {
        HandAction::Bet { player, call_amount, min_bet } => {
            assert_eq!((player, call_amount, min_bet), (1, 0, 2));
        }
        _ => panic!("the first player was not asked"),
    }
    apply_bet(&mut state, &rules, BetResp::Bet(10), &mut log);
    answers += 1;

    let asked = run_until_asked(&mut state, &variant, &rules, &mut log);
    match asked {
        HandAction::Bet { player, call_amount, min_bet } => {
            assert_eq!((player, call_amount, min_bet), (0, 10, 20));
        }
        _ => panic!("the second player was not asked"),
    }
    apply_bet(&mut state, &rules, BetResp::Bet(10), &mut log);
    answers += 1;

    let special: SpecialRules = Vec::new();
    match advance(&mut state, &variant, &rules, &special, &mut log).unwrap() {
        HandAction::Continue => {}
        _ => panic!("the round did not end"),
    }
    assert!(state.cur_round.is_none());
    assert_eq!(answers, 2);
    assert_eq!(state.players[0].total_bet, 10);
    assert_eq!(state.players[1].total_bet, 10);
    assert_eq!(log.len(), 2);
    match &log[0] {
        PokerGlobalViewDiff::Common(PokerViewDiff::Bet { bet_kind, player, chips }) => {
            assert_eq!(*bet_kind, BetDiffKind::Raise { diff_from_last_raise: 10, total: 10 });
            assert_eq!((*player, *chips), (1, 10));
        }
        _ => panic!("no bet in the log"),
    }
    match &log[1] {
        PokerGlobalViewDiff::Common(PokerViewDiff::Bet { bet_kind, player, chips }) => {
            assert_eq!(*bet_kind, BetDiffKind::Call);
            assert_eq!((*player, *chips), (0, 10));
        }
        _ => panic!("no call in the log"),
    }
}

#[test]
fn a_fold_leaves_the_pot_to_the_last_player() {
    let variant = bet_round(1);
    let rules = ante_rules(0);
    let mut state = HandState::new(bet_round(1), standard_deck(), &vec![50, 50]);
    let mut log = Vec::new();
    run_until_asked(&mut state, &variant, &rules, &mut log);
    apply_bet(&mut state, &rules, BetResp::Bet(4), &mut log);
    run_until_asked(&mut state, &variant, &rules, &mut log);
    apply_bet(&mut state, &rules, BetResp::Fold, &mut log);
    match log.last().unwrap() {
        PokerGlobalViewDiff::Common(PokerViewDiff::Fold { player }) => assert_eq!(*player, 0),
        _ => panic!("no fold in the log"),
    }
    match run_until_asked(&mut state, &variant, &rules, &mut log) {
        HandAction::Finished { deltas } => {
            assert_eq!(deltas, vec![0, 0]);
            assert!(state.players[0].folded);
            assert_eq!(state.players[1].total_bet, 4);
        }
        _ => panic!("the hand did not end"),
    }
}

#[test]
fn everyone_folding_but_one_ends_the_hand_early() {
    let variant = texas_hold_em();
    let rules = ante_rules(1);
    let mut state = HandState::new(texas_hold_em(), standard_deck(), &vec![20, 20]);
    let mut log = Vec::new();
    match run_until_asked(&mut state, &variant, &rules, &mut log) {
        HandAction::Bet { player, .. } => assert_eq!(player, 1),
        _ => panic!("nobody was asked"),
    }
    apply_bet(&mut state, &rules, BetResp::Fold, &mut log);
    match run_until_asked(&mut state, &variant, &rules, &mut log) {
        HandAction::Finished { deltas } => assert_eq!(deltas, vec![1, -1]),
        _ => panic!("the hand went on"),
    }
    assert_eq!(state.community_cards.len(), 0);
    match log.last().unwrap() {
        PokerGlobalViewDiff::Common(PokerViewDiff::Winners(w)) => {
            assert_eq!(
                *w,
                Winners { winners_by_pot: vec![(Subpot { chips: 2, players: vec![0] }, vec![0])] }
            );
        }
        _ => panic!("no winners in the log"),
    }
}

#[test]
fn a_whole_hand_of_hold_em_moves_no_chip_out_of_the_game() {
    let variant = texas_hold_em();
    let rules = blind_rules();
    let mut state = HandState::new(texas_hold_em(), standard_deck(), &vec![30, 30, 30]);
    let mut log = Vec::new();
    let deltas = loop {
        match run_until_asked(&mut state, &variant, &rules, &mut log) {
            HandAction::Bet { call_amount, .. } => {
                apply_bet(&mut state, &rules, BetResp::Bet(call_amount), &mut log)
            }
            HandAction::Finished { deltas } => break deltas,
            _ => panic!("nobody replaces cards in hold 'em"),
        }
    };
    assert_eq!(deltas.len(), 3);
    assert_eq!(deltas.iter().sum::<Chips>(), 0);
    assert_eq!(state.community_cards.len(), 5);
    for p in &state.players {
        assert_eq!(p.hand.len(), 2);
        assert!(p.hand.iter().all(|c| c.facing == Facing::FaceUp));
    }
    assert_eq!(state.deck.raw.len(), 52 - 6 - 5);
    assert_eq!(state.community_cards.get(0), Card { rank: 6, suit: Suit(3) });
    assert_eq!(state.players[0].hand[0].card, Card { rank: 12, suit: Suit(3) });
    assert_eq!(state.players[1].hand[0].card, Card { rank: 11, suit: Suit(3) });
    assert_eq!(state.players[0].hand[1].card, Card { rank: 9, suit: Suit(3) });
}

#[test]
fn dealing_from_an_empty_deck_is_an_error() {
    let variant = five_card_stud();
    let rules = ante_rules(0);
    let deck = VecDeck { raw: standard_deck().raw[..7].to_vec() };
    let mut state = HandState::new(five_card_stud(), deck, &vec![10, 10]);
    let special: SpecialRules = Vec::new();
    let mut log = Vec::new();
    let mut result = Ok(HandAction::Continue);
    for _ in 0..4 {
        result = advance(&mut state, &variant, &rules, &special, &mut log);
        if result.is_err() {
            break;
        }
    }
    match result {
        Err(message) => assert_eq!(message, "Ran out of cards in deck"),
        Ok(_) => panic!("seven cards were enough for ten"),
    }
    let mut empty = VecDeck { raw: Vec::new() };
    assert_eq!(empty.draw(), Err("Ran out of cards in deck".to_string()));
    let mut one = VecDeck { raw: vec![Card { rank: 3, suit: Suit(1) }] };
    assert_eq!(one.draw(), Ok(Card { rank: 3, suit: Suit(1) }));
    assert_eq!(one.raw.len(), 0);
}

#[test]
fn cards_are_replaced_in_seat_order_after_the_dealer() {
    let variant = five_card_draw();
    let rules = ante_rules(1);
    let mut state = HandState::new(five_card_draw(), standard_deck(), &vec![20, 20, 20]);
    let mut log = Vec::new();
    let mut asked_to_replace = Vec::new();
    let deltas = loop {
        match run_until_asked(&mut state, &variant, &rules, &mut log) {
            HandAction::Bet { call_amount, .. } => {
                apply_bet(&mut state, &rules, BetResp::Bet(call_amount), &mut log)
            }
            HandAction::Replace { player, max_can_replace } => {
                asked_to_replace.push((player, max_can_replace));
                let before = state.players[player].hand.clone();
                let top = *state.deck.raw.last().unwrap();
                apply_replace(&mut state, &vec![0], &mut log).unwrap();
                assert_eq!(state.players[player].hand[0].card, top);
                assert_eq!(state.players[player].hand[1..], before[1..]);
                match log.last().unwrap() {
                    PokerGlobalViewDiff::Replace { player: p, drawn, discard } => {
                        assert_eq!(*p, player);
                        assert_eq!(*discard, vec![before[0]]);
                        assert_eq!(drawn[0].card, top);
                    }
                    _ => panic!("no replacement in the log"),
                }
            }
            HandAction::Finished { deltas } => break deltas,
            HandAction::Continue => {}
        }
    };
    let order: Vec<usize> = asked_to_replace.iter().map(|&(player, _)| player).collect();
    assert_eq!(order, vec![1, 2, 0]);
    assert!(asked_to_replace.iter().all(|&(_, max)| max == 3 || max == 4));
    assert_eq!(deltas.iter().sum::<Chips>(), 0);
}

#[test]
fn a_player_with_an_ace_may_replace_four_cards() {
    let mut state = HandState::new(five_card_draw(), standard_deck(), &vec![20, 20]);
    state.players[1].hand = vec![
        CardState { card: Card { rank: 0, suit: Suit(0) }, facing: Facing::FaceDown },
        CardState { card: Card { rank: 5, suit: Suit(0) }, facing: Facing::FaceDown },
    ];
    state.rounds.clear();
    state.cur_round = Some(RoundState::new(five_card_draw().rules.remove(3)));
    let special: SpecialRules = Vec::new();
    let mut log = Vec::new();
    match advance(&mut state, &five_card_draw(), &ante_rules(0), &special, &mut log).unwrap() {
        HandAction::Replace { player, max_can_replace } => {
            assert_eq!((player, max_can_replace), (1, 4))
        }
        _ => panic!("nobody was asked to replace"),
    }
    let short = VecDeck { raw: Vec::new() };
    state.deck = short;
    assert!(apply_replace(&mut state, &vec![1], &mut log).is_err());
}

#[test]
fn antes_and_blinds_are_collected_as_far_as_the_chips_go() {
    let mut players = vec![
        PlayerState { chips: 5, hand: vec![], folded: false, total_bet: 0 },
        PlayerState { chips: 1, hand: vec![], folded: false, total_bet: 0 },
        PlayerState { chips: 9, hand: vec![], folded: false, total_bet: 0 },
    ];
    let (bet, diffs) = collect_ante_from_players(&AnteRule::Ante(2), &mut players);
    assert!(bet.is_none());
    assert_eq!(players.iter().map(|p| p.total_bet).collect::<Vec<_>>(), vec![2, 1, 2]);
    assert_eq!(diffs.len(), 3);
    match &diffs[1] {
        PokerGlobalViewDiff::Common(PokerViewDiff::Bet { bet_kind, player, chips }) => {
            assert_eq!(*bet_kind, BetDiffKind::Blind("ante".to_string()));
            assert_eq!((*player, *chips), (1, 1));
        }
        _ => panic!("no ante in the log"),
    }

    let mut players = vec![
        PlayerState { chips: 5, hand: vec![], folded: false, total_bet: 0 },
        PlayerState { chips: 1, hand: vec![], folded: false, total_bet: 0 },
        PlayerState { chips: 9, hand: vec![], folded: false, total_bet: 0 },
    ];
    let blinds = AnteRule::Blinds(vec![Blind { amount: 2 }, Blind { amount: 4 }]);
    let (bet, diffs) = collect_ante_from_players(&blinds, &mut players);
    let bet = bet.unwrap();
    assert_eq!(bet.player, 0);
    assert_eq!(bet.last_bet, Some((None, 4)));
    let expected: HashMap<usize, Chips> = vec![(1, 1), (2, 4)].into_iter().collect();
    assert_eq!(bet.all_bets, expected);
    assert_eq!(players.iter().map(|p| p.total_bet).collect::<Vec<_>>(), vec![0, 0, 0]);
    assert_eq!(diffs.len(), 2);

    let mut two = vec![
        PlayerState { chips: 5, hand: vec![], folded: false, total_bet: 0 },
        PlayerState { chips: 5, hand: vec![], folded: false, total_bet: 0 },
    ];
    let (bet, _) = collect_ante_from_players(&blinds, &mut two);
    let bet = bet.unwrap();
    assert_eq!(bet.player, 0);
    let expected: HashMap<usize, Chips> = vec![(0, 2), (1, 4)].into_iter().collect();
    assert_eq!(bet.all_bets, expected);
    let (none, diffs) = collect_ante_from_players(&AnteRule::Blinds(vec![]), &mut two);
    assert!(none.is_none());
    assert!(diffs.is_empty());
}

#[test]
fn collect_bets_adds_the_bets_of_the_round() {
    let mut players = vec![
        PlayerState { chips: 50, hand: vec![], folded: false, total_bet: 3 },
        PlayerState { chips: 50, hand: vec![], folded: true, total_bet: 3 },
        PlayerState { chips: 50, hand: vec![], folded: false, total_bet: 3 },
    ];
    let bets: HashMap<usize, Chips> = vec![(0, 10), (2, 47)].into_iter().collect();
    collect_bets(&mut players, &bets);
    assert_eq!(players.iter().map(|p| p.total_bet).collect::<Vec<_>>(), vec![13, 3, 50]);
    assert!(players[1].folded);
}

#[test]
fn blinds_open_the_first_round_of_betting() {
    let variant = texas_hold_em();
    let rules = blind_rules();
    let mut state = HandState::new(texas_hold_em(), standard_deck(), &vec![30, 30, 30]);
    let mut log = Vec::new();
    match run_until_asked(&mut state, &variant, &rules, &mut log) {
        HandAction::Bet { player, call_amount, min_bet } => {
            assert_eq!((player, call_amount, min_bet), (0, 2, 4))
        }
        _ => panic!("nobody was asked"),
    }
    let blinds_logged = log
        .iter()
        .filter(|d| {
            matches!(
                d,
                PokerGlobalViewDiff::Common(PokerViewDiff::Bet {
                    bet_kind: BetDiffKind::Blind(_),
                    ..
                })
            )
        })
        .count();
    assert_eq!(blinds_logged, 2);
    assert!(state.pending_bet.is_none());
}

#[test]
fn a_round_ends_at_once_when_only_one_player_can_still_bet() {
    let variant = bet_round(1);
    let rules = ante_rules(0);
    let mut state = HandState::new(bet_round(1), standard_deck(), &vec![10, 40]);
    let mut log = Vec::new();
    run_until_asked(&mut state, &variant, &rules, &mut log);
    apply_bet(&mut state, &rules, BetResp::Bet(5), &mut log);
    run_until_asked(&mut state, &variant, &rules, &mut log);
    apply_bet(&mut state, &rules, BetResp::Bet(10), &mut log);
    let special: SpecialRules = Vec::new();
    match advance(&mut state, &variant, &rules, &special, &mut log).unwrap() {
        HandAction::Continue => {}
        _ => panic!("a covered player was asked again"),
    }
    assert!(state.cur_round.is_none());
    assert_eq!(state.players[0].total_bet, 10);
    assert_eq!(state.players[1].total_bet, 5);
}

#[test]
fn cards_are_shown_from_the_dealer_on() {
    let mut players = vec![
        PlayerState {
            chips: 9,
            hand: vec![
                CardState { card: Card { rank: 2, suit: Suit(0) }, facing: Facing::FaceDown },
                CardState { card: Card { rank: 2, suit: Suit(1) }, facing: Facing::FaceUp },
            ],
            folded: false,
            total_bet: 1,
        },
        PlayerState {
            chips: 9,
            hand: vec![CardState { card: Card { rank: 5, suit: Suit(0) }, facing: Facing::FaceDown }],
            folded: true,
            total_bet: 1,
        },
        PlayerState {
            chips: 9,
            hand: vec![
                CardState { card: Card { rank: 7, suit: Suit(0) }, facing: Facing::FaceUp },
                CardState { card: Card { rank: 8, suit: Suit(1) }, facing: Facing::FaceUp },
            ],
            folded: false,
            total_bet: 1,
        },
    ];
    let mut log = Vec::new();
    show_cards(&five_card_stud(), &mut players, &mut log, None, CardTuple::new(), &vec![]);
    assert!(players[0].hand.iter().all(|c| c.facing == Facing::FaceUp));
    assert_eq!(players[1].hand[0].facing, Facing::FaceDown);
    assert_eq!(log.len(), 1);
    match &log[0] {
        PokerGlobalViewDiff::Common(PokerViewDiff::ShowCards { player, shown, strength }) => {
            assert_eq!(*player, 0);
            assert_eq!(
                *shown,
                vec![(
                    0,
                    CardViewState::Visible(CardState {
                        card: Card { rank: 2, suit: Suit(0) },
                        facing: Facing::FaceUp
                    })
                )]
            );
            assert_eq!(strength.kind, pokerrs::card::Kind::Pair(2));
        }
        _ => panic!("no cards shown"),
    }
    let mut alone = vec![players[0].clone(), players[1].clone()];
    alone[0].hand[0].facing = Facing::FaceDown;
    let mut quiet = Vec::new();
    show_cards(&five_card_stud(), &mut alone, &mut quiet, None, CardTuple::new(), &vec![]);
    assert!(quiet.is_empty());
    assert_eq!(alone[0].hand[0].facing, Facing::FaceDown);
}

#[test]
fn a_hand_that_runs_out_of_cards_moves_no_chips() {
    let variant = five_card_stud();
    let rules = ante_rules(1);
    let deck = VecDeck { raw: standard_deck().raw[..3].to_vec() };
    let mut state = HandState::new(five_card_stud(), deck, &vec![10, 10]);
    let special: SpecialRules = Vec::new();
    let mut log = Vec::new();
    loop {
        let before: Vec<(Chips, Chips, bool)> =
            state.players.iter().map(|p| (p.chips, p.total_bet, p.folded)).collect();
        match advance(&mut state, &variant, &rules, &special, &mut log) {
            Ok(HandAction::Continue) => {}
            Ok(_) => panic!("three cards were enough for ten"),
            Err(message) => {
                assert_eq!(message, "Ran out of cards in deck");
                let after: Vec<(Chips, Chips, bool)> =
                    state.players.iter().map(|p| (p.chips, p.total_bet, p.folded)).collect();
                assert_eq!(before, vec![(10, 1, false), (10, 1, false)]);
                assert_eq!(after, before);
                break;
            }
        }
    }
}

#[test]
fn what_a_folded_player_bet_beyond_the_others_is_won_too() {
    let seat = |chips: Chips, total_bet: Chips, folded: bool| PlayerState {
        chips,
        hand: Vec::new(),
        folded,
        total_bet,
    };
    let mut state = HandState {
        deck: standard_deck(),
        rounds: Vec::new(),
        cur_round: None,
        players: vec![seat(30, 20, true), seat(30, 10, false), seat(30, 4, true)],
        community_cards: CardTuple::new(),
        pending_bet: None,
    };
    let rules = ante_rules(1);
    let special: SpecialRules = Vec::new();
    let mut log = Vec::new();
    assert!(state.ready(&five_card_stud(), &rules));
    match advance(&mut state, &five_card_stud(), &rules, &special, &mut log) {
        Ok(HandAction::Finished { deltas }) => {
            assert_eq!(deltas, vec![-20, 24, -4]);
            assert_eq!(deltas.iter().sum::<Chips>(), 0);
        }
        _ => panic!("one player is left"),
    }
    assert_eq!(state.players.len(), 3);
}
