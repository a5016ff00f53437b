use pokerrs::bitcard::{CardSet, CardTuple};
use pokerrs::bot::{
    answers, best_replace, bet_risk_factor, cards_left, check_or_call_any, hands, my_hand,
    pocket_threes, pot_is_counted, risk_of_kind, visible_cards, win_ratio_cards_left, Bot,
    BotAlwaysCall, BotEasy, BotMedium, RiskFactor, WinRatio,
};
use pokerrs::card::{standard_deck, Card, Kind, Suit, NUM_RANKS};
use pokerrs::game::{BetResp, Chips, Facing};
use pokerrs::gamestate::CardState;
use pokerrs::viewstate::{CardViewState, PlayerViewState, PokerVariantViewState, PokerViewState};
use std::collections::HashMap;

fn make_cards(tups: &[(usize, usize)]) -> Vec<CardViewState> {
    tups.iter()
        .map(|(suit, rank)| {
            CardViewState::Visible(CardState {
                card: Card { rank: *rank, suit: Suit(*suit) },
                facing: Facing::FaceUp,
            })
        })
        .collect()
}

fn hidden(n: usize) -> Vec<CardViewState> {
    std::iter::repeat(CardViewState::Invisible).take(n).collect()
}

fn view(
    mine: Vec<CardViewState>,
    theirs: Vec<CardViewState>,
    community: Vec<CardViewState>,
    use_from_hand: usize,
) -> PokerViewState {
    PokerViewState {
        role: 0,
        players: vec![
            PlayerViewState { chips: 100, total_bet: 1, hand: mine, folded: false },
            PlayerViewState { chips: 100, total_bet: 1, hand: theirs, folded: false },
        ],
        community_cards: community,
        bet_this_round: HashMap::new(),
        current_turn: Some(0),
        rules: Vec::new(),
        variant: PokerVariantViewState { use_from_hand },
    }
}

fn some_cards_left(state: &PokerViewState, keep: usize) -> CardSet {
    let all = cards_left(state).to_vec();
    CardSet::from_vec(all.into_iter().step_by(5).take(keep).collect())
}

#[test]
fn the_win_ratio_lies_between_nothing_and_all() {
    let mine = make_cards(&[(0, 2), (3, 2), (2, NUM_RANKS - 1), (1, 1)]);
    let community = make_cards(&[(0, 0), (1, 0), (0, 1), (0, 9), (2, 5)]);
    let vs = view(mine, hidden(4), community, 2);
    let left = some_cards_left(&vs, 7);
    let r = win_ratio_cards_left(&vs, left);
    assert_eq!(r.total, 35);
    assert!(r.won <= r.total);
    let ratio = r.won as f64 / r.total as f64;
    assert!(ratio >= 0.0);
    assert!(ratio <= 1.0);
}

#[test]
fn the_win_ratio_is_counted_without_a_community() {
    let mine = make_cards(&[(0, 2), (3, 2), (2, NUM_RANKS - 1), (1, 1)]);
    let vs = view(mine, hidden(4), Vec::new(), 2);
    let left = some_cards_left(&vs, 6);
    let r = win_ratio_cards_left(&vs, left);
    assert_eq!(r.total, 15);
    assert!(r.won <= r.total);
    assert!(r.won > 0);
}

#[test]
fn four_aces_lose_to_a_straight_flush_only() {
    let mine = make_cards(&[(0, 0), (1, 0), (2, 0), (3, 0), (0, 5)]);
    let vs = view(mine, hidden(5), Vec::new(), 5);
    let left = CardSet::from_vec(
        standard_deck().raw.into_iter().filter(|c| c.rank >= 6 && c.suit.0 < 2).collect(),
    );
    let r = win_ratio_cards_left(&vs, left);
    assert_eq!(r, WinRatio { won: 2002 - 6, total: 2002 });
    let folded = PokerViewState {
        players: vec![
            vs.players[0].clone(),
            PlayerViewState { folded: true, ..vs.players[1].clone() },
        ],
        ..vs.clone()
    };
    assert_eq!(win_ratio_cards_left(&folded, left), WinRatio { won: 0, total: 0 });
}

#[test]
fn the_cards_that_are_seen_are_not_left() {
    let mine = make_cards(&[(0, 2), (3, 2)]);
    let community = make_cards(&[(1, 7)]);
    let vs = view(mine.clone(), hidden(2), community, 2);
    let left = cards_left(&vs);
    assert_eq!(left.to_vec().len(), 49);
    assert!(!left.contains(Card { rank: 2, suit: Suit(0) }));
    assert!(!left.contains(Card { rank: 2, suit: Suit(3) }));
    assert!(!left.contains(Card { rank: 7, suit: Suit(1) }));
    assert!(left.contains(Card { rank: 7, suit: Suit(2) }));
    assert_eq!(my_hand(&vs), mine);
    assert_eq!(
        visible_cards(&vs.players[0].hand),
        CardTuple::from_vec(vec![Card { rank: 2, suit: Suit(0) }, Card { rank: 2, suit: Suit(3) }])
    );
    assert_eq!(visible_cards(&vs.players[1].hand), CardTuple::new());
    assert!(pocket_threes(&vs));
    let other = view(make_cards(&[(0, 2), (3, 4)]), hidden(2), Vec::new(), 2);
    assert!(!pocket_threes(&other));
}

#[test]
fn hidden_cards_may_be_any_cards() {
    assert_eq!(hands(&Vec::new()), vec![CardTuple::new()]);
    let open = make_cards(&[(1, 4), (2, 9)]);
    assert_eq!(hands(&open), vec![visible_cards(&open)]);
    let mut one_hidden = make_cards(&[(1, 4)]);
    one_hidden.push(CardViewState::Invisible);
    let all = hands(&one_hidden);
    assert_eq!(all.len(), 52);
    assert_eq!(all[0].get(0), Card { rank: 4, suit: Suit(1) });
    assert_eq!(all[0].get(1), Card { rank: 0, suit: Suit(0) });
    assert_eq!(all[51].get(1), Card { rank: 12, suit: Suit(3) });
    assert_eq!(hands(&hidden(2)).len(), 52 * 53 / 2);
}

fn betting_view(chips: Chips, total_bet: Chips, pot_of_other: Chips, this_round: Chips) -> PokerViewState {
    let mut bets = HashMap::new();
    if this_round > 0 {
        bets.insert(0usize, this_round);
    }
    PokerViewState {
        role: 0,
        players: vec![
            PlayerViewState { chips, total_bet, hand: make_cards(&[(0, 5), (1, 8)]), folded: false },
            PlayerViewState { chips: 500, total_bet: pot_of_other, hand: hidden(2), folded: false },
        ],
        community_cards: Vec::new(),
        bet_this_round: bets,
        current_turn: Some(0),
        rules: Vec::new(),
        variant: PokerVariantViewState { use_from_hand: 2 },
    }
}

#[test]
fn a_bot_bets_as_far_as_its_risk_factor_goes() {
    let vs = betting_view(100, 10, 30, 0);
    assert_eq!(vs.pot(), 40);
    assert_eq!(check_or_call_any(&vs, 20), BetResp::Bet(20));
    assert_eq!(check_or_call_any(&vs, 200), BetResp::Bet(90));
    assert_eq!(bet_risk_factor(&vs, 20, 40, RiskFactor::CheckFold), BetResp::Fold);
    assert_eq!(bet_risk_factor(&vs, 0, 40, RiskFactor::CheckFold), BetResp::Bet(0));
    let half = RiskFactor::PotRatio { numer: 1, denom: 2 };
    assert_eq!(bet_risk_factor(&vs, 21, 40, half), BetResp::Fold);
    assert_eq!(bet_risk_factor(&vs, 20, 40, half), BetResp::Bet(20));
    assert_eq!(bet_risk_factor(&vs, 20, 20, half), BetResp::Bet(40));
    let double = RiskFactor::PotRatio { numer: 2, denom: 1 };
    assert_eq!(bet_risk_factor(&vs, 20, 20, double), BetResp::Bet(90));
    assert_eq!(bet_risk_factor(&vs, 500, 20, RiskFactor::CallAny), BetResp::Bet(90));
    assert_eq!(bet_risk_factor(&vs, 5, 10, RiskFactor::CallAny), BetResp::Bet(15));
    assert_eq!(bet_risk_factor(&vs, 5, 11, RiskFactor::CallAny), BetResp::Bet(5));
    let unknown = RiskFactor::PotRatio { numer: 0, denom: 0 };
    assert_eq!(bet_risk_factor(&vs, 0, 10, unknown), BetResp::Bet(0));
    assert_eq!(bet_risk_factor(&vs, 1, 10, unknown), BetResp::Fold);
    let in_round = betting_view(100, 10, 30, 20);
    assert_eq!(bet_risk_factor(&in_round, 20, 40, RiskFactor::CheckFold), BetResp::Bet(20));
}

#[test]
fn bots_answer_when_asked() {
    let vs = betting_view(100, 10, 30, 0);
    assert_eq!(BotAlwaysCall::new().bet(&vs, 20, 40), BetResp::Bet(20));
    assert_eq!(BotEasy::new().bet(&vs, 20, 40), BetResp::Bet(20));
    assert_eq!(BotEasy::new().bet(&vs, 21, 40), BetResp::Fold);
    let threes = PokerViewState {
        players: vec![
            PlayerViewState { hand: make_cards(&[(0, 2), (1, 2)]), ..vs.players[0].clone() },
            vs.players[1].clone(),
        ],
        ..vs.clone()
    };
    assert_eq!(BotEasy::new().bet(&threes, 50, 100), BetResp::Bet(50));
    assert_eq!(BotMedium::new().bet(&threes, 50, 100), BetResp::Bet(50));
    assert_eq!(risk_of_kind(&Kind::FourKind(3)), RiskFactor::CallAny);
    assert_eq!(risk_of_kind(&Kind::WinsItAll), RiskFactor::CallAny);
    assert_eq!(
        risk_of_kind(&Kind::FullHouse { high: 3, low: 2 }),
        RiskFactor::PotRatio { numer: 2, denom: 1 }
    );
    assert_eq!(risk_of_kind(&Kind::Straight(9)), RiskFactor::PotRatio { numer: 3, denom: 4 });
    assert_eq!(risk_of_kind(&Kind::Pair(9)), RiskFactor::PotRatio { numer: 1, denom: 8 });
    assert_eq!(risk_of_kind(&Kind::HighCard(9)), RiskFactor::PotRatio { numer: 0, denom: 1 });
    let full = PokerViewState {
        players: vec![
            PlayerViewState {
                hand: make_cards(&[(0, 7), (1, 7), (2, 7), (0, 4), (1, 4)]),
                ..vs.players[0].clone()
            },
            vs.players[1].clone(),
        ],
        variant: PokerVariantViewState { use_from_hand: 5 },
        ..vs.clone()
    };
    assert_eq!(BotEasy::new().bet(&full, 20, 20), BetResp::Bet(90));
}

#[test]
fn the_best_cards_to_give_back_are_the_odd_ones() {
    let mine = make_cards(&[(2, 0), (3, 0), (0, 0), (1, 1), (2, 2)]);
    let vs = PokerViewState {
        community_cards: Vec::new(),
        ..view(mine, hidden(5), Vec::new(), 5)
    };
    assert_eq!(best_replace(&vs, 0), Vec::<usize>::new());
    let made = make_cards(&[(0, 8), (0, 9), (0, 10), (0, 11), (0, 12)]);
    let royal = view(made, hidden(5), Vec::new(), 5);
    assert_eq!(best_replace(&royal, 1), Vec::<usize>::new());
    assert_eq!(BotAlwaysCall::new().replace(&royal, 1), Vec::<usize>::new());
}

#[test]
fn with_all_cards_open_every_rival_is_one_showdown() {
    let open = |cards: &[(usize, usize)], folded: bool| PlayerViewState {
        chips: 100,
        total_bet: 1,
        hand: make_cards(cards),
        folded,
    };
    let vs = PokerViewState {
        role: 1,
        players: vec![
            open(&[(2, 12), (3, 12)], false),
            open(&[(0, 0), (1, 0)], false),
            open(&[(1, 5), (2, 5)], false),
            open(&[(1, 11), (3, 11)], true),
        ],
        community_cards: make_cards(&[(0, 5), (1, 9), (2, 11), (3, 2), (0, 7)]),
        bet_this_round: HashMap::new(),
        current_turn: Some(1),
        rules: Vec::new(),
        variant: PokerVariantViewState { use_from_hand: 2 },
    };
    let left = cards_left(&vs);
    assert_eq!(win_ratio_cards_left(&vs, left), WinRatio { won: 1, total: 2 });
    assert_eq!(win_ratio_cards_left(&vs, CardSet::new()), WinRatio { won: 1, total: 2 });
}

#[test]
fn rivals_who_show_the_same_are_counted_one_by_one() {
    let seat = |hand: Vec<CardViewState>| PlayerViewState {
        chips: 100,
        total_bet: 1,
        hand,
        folded: false,
    };
    let vs = PokerViewState {
        role: 0,
        players: vec![seat(make_cards(&[(1, 12)])), seat(hidden(1)), seat(hidden(1))],
        community_cards: Vec::new(),
        bet_this_round: HashMap::new(),
        current_turn: Some(0),
        rules: Vec::new(),
        variant: PokerVariantViewState { use_from_hand: 5 },
    };
    let left = CardSet::from_vec(vec![
        Card { rank: 1, suit: Suit(0) },
        Card { rank: 4, suit: Suit(0) },
        Card { rank: 0, suit: Suit(2) },
        Card { rank: 12, suit: Suit(2) },
    ]);
    assert_eq!(win_ratio_cards_left(&vs, left), WinRatio { won: 4, total: 8 });
}

#[test]
fn the_odd_card_beside_four_aces_is_given_back() {
    let mine = make_cards(&[(0, 0), (1, 0), (2, 0), (3, 0), (1, 1)]);
    let vs = view(mine, hidden(5), Vec::new(), 5);
    assert_eq!(best_replace(&vs, 1), vec![4]);
    assert_eq!(BotEasy::new().replace(&vs, 1), vec![4]);
    assert_eq!(BotMedium::new().replace(&vs, 1), vec![4]);
}

#[test]
fn of_two_choices_that_are_worth_the_same_the_first_is_made() {
    let mine = make_cards(&[(0, 1), (1, 2)]);
    let vs = view(mine, hidden(2), Vec::new(), 5);
    assert_eq!(best_replace(&vs, 1), vec![0]);
}

#[test]
fn a_bot_is_asked_only_about_hands_that_it_can_play() {
    let good = view(make_cards(&[(0, 2), (3, 2)]), hidden(2), make_cards(&[(1, 7)]), 2);
    assert!(answers(&good));
    assert!(pot_is_counted(&good));
    assert!(!answers(&PokerViewState { role: 2, ..good.clone() }));
    let odd = view(make_cards(&[(0, 13), (3, 2)]), hidden(2), Vec::new(), 2);
    assert!(!answers(&odd));
    let blind = view(hidden(2), hidden(2), Vec::new(), 2);
    assert!(!answers(&blind));
    let crowded = view(make_cards(&[(0, 2)]), hidden(1), hidden(10), 2);
    assert!(!answers(&crowded));
    let mut broke = good.clone();
    broke.players[0].total_bet = 101;
    assert!(!answers(&broke));
    let mut folded = good.clone();
    folded.players[1].folded = true;
    folded.players[1].hand = hidden(12);
    assert!(answers(&folded));
    folded.players[1].folded = false;
    assert!(!answers(&folded));
    let mut rich = good.clone();
    rich.players[1].total_bet = Chips::MAX;
    assert!(!pot_is_counted(&rich));
    assert!(!answers(&rich));
}

#[test]
fn the_low_cards_beside_a_pair_of_aces_and_a_king_are_given_back() {
    let mine = make_cards(&[(2, 0), (3, 0), (0, NUM_RANKS - 1), (1, 1), (2, 2)]);
    let vs = view(mine, hidden(5), Vec::new(), 5);
    assert_eq!(best_replace(&vs, 2), vec![3, 4]);
}
