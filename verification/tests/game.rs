use pokerrs::card::{shuffled_deck, standard_deck, Card, Suit};
use pokerrs::game::{
    five_card_draw, five_card_stud, omaha_hold_em, seats_for, seven_card_stud, texas_hold_em,
    variant_max_players, BetResp, Chips, DealersChoiceResp, Facing, MaxReplace, PokerVariantDesc,
    PokerVariants, Round,
};
use pokerrs::gamestate::{CardState, HandState, PlayerState, RoundState};
use pokerrs::special_card::{SpecialCardGroup, SpecialCardGroupDesc, SpecialCardType};
use pokerrs::viewstate::{
    redact_cards, BetDiffKind, CardViewState, PokerGlobalViewDiff, PokerViewDiff, PokerViewState,
};
use std::collections::HashMap;

#[test]
fn variants_list_their_phases() {
    assert_eq!(texas_hold_em().rules.len(), 9);
    assert_eq!(texas_hold_em().use_from_hand, 2);
    assert_eq!(omaha_hold_em().use_from_hand, 2);
    assert_eq!(five_card_stud().rules.len(), 3);
    assert_eq!(seven_card_stud().rules.len(), 11);
    assert_eq!(five_card_draw().rules.len(), 5);
    match &omaha_hold_em().rules[1] {
        Round::DrawToHand { facing } => assert_eq!(*facing, vec![Facing::FaceDown; 4]),
        _ => panic!("no deal after the ante"),
    }
    match &seven_card_stud().rules[1] {
        Round::DrawToHand { facing } => {
            assert_eq!(*facing, vec![Facing::FaceDown, Facing::FaceDown, Facing::FaceUp])
        }
        _ => panic!("no deal after the ante"),
    }
    match &five_card_draw().rules[3] {
        Round::Replace { max_replace_fun, max_possible_replace, extra_replace } => {
            assert_eq!(*max_replace_fun, MaxReplace::ThreeOrFourWithAce);
            assert_eq!((*max_possible_replace, *extra_replace), (3, 4));
        }
        _ => panic!("no replacing in five card draw"),
    }
}

#[test]
fn variants_are_found_by_name() {
    let all = PokerVariants::all();
    let names: Vec<&str> = all.descs.iter().map(|d| d.name.as_str()).collect();
    assert_eq!(
        names,
        vec!["Five Card Draw", "Five Card Stud", "Omaha Hold 'Em", "Seven Card Stud", "Texas Hold 'Em"]
    );
    assert_eq!(all.descs[0].special_cards, SpecialCardGroupDesc::all());
    assert_eq!(all.descs[3].variant().rules.len(), 11);
    assert_eq!(all.descs[0].variant().rules.len(), 5);
    assert_eq!(all.descs[3].find_variant().unwrap().rules.len(), 11);
    let unknown = PokerVariantDesc { name: "Go Fish".to_string(), special_cards: vec![] };
    assert!(unknown.find_variant().is_none());
    assert_eq!(PokerVariants::table().len(), 5);
    let d = DealersChoiceResp::default();
    assert_eq!(d.variant_idx, 0);
    assert!(d.special_cards.is_empty());
}

#[test]
fn a_deck_is_enough_for_so_many_players() {
    assert_eq!(variant_max_players(&texas_hold_em(), 52), 23);
    assert_eq!(variant_max_players(&omaha_hold_em(), 52), 11);
    assert_eq!(variant_max_players(&seven_card_stud(), 52), 7);
    assert_eq!(variant_max_players(&five_card_draw(), 52), 6);
    assert_eq!(seats_for(&texas_hold_em(), 52), Some(23));
    assert_eq!(seats_for(&texas_hold_em(), 4), None);
    let no_cards = pokerrs::game::PokerVariant { rules: vec![Round::Ante], use_from_hand: 5 };
    assert_eq!(seats_for(&no_cards, 52), None);
}

#[test]
fn special_card_groups_are_twos_and_the_axe() {
    let groups = SpecialCardGroup::all();
    assert_eq!(groups.len(), 2);
    assert_eq!(groups[0].name, "Twos Wild");
    assert_eq!(groups[0].cards.len(), 4);
    for (s, c) in groups[0].cards.iter().enumerate() {
        assert_eq!(c.wtype, SpecialCardType::Wild);
        assert_eq!(c.card, Card { rank: 1, suit: Suit(s) });
    }
    assert_eq!(groups[1].name, "Man with the axe wins it all");
    assert_eq!(groups[1].cards[0].wtype, SpecialCardType::WinsItAll);
    assert_eq!(groups[1].cards[0].card, Card { rank: 12, suit: Suit(2) });
    let descs = SpecialCardGroupDesc::all();
    assert_eq!(SpecialCardGroup::from_desc(&descs[1]), Some(groups[1].clone()));
    assert_eq!(SpecialCardGroup::from_desc(&descs[0]), Some(groups[0].clone()));
    let unknown = SpecialCardGroupDesc { name: "Jokers".to_string() };
    assert_eq!(SpecialCardGroup::from_desc(&unknown), None);
}

#[test]
fn a_shuffled_deck_holds_the_same_cards_in_another_order() {
    let deck = shuffled_deck();
    assert_eq!(deck.raw.len(), 52);
    let mut sorted = deck.raw.clone();
    sorted.sort_by_key(|c| (c.suit.0, c.rank));
    assert_eq!(sorted, standard_deck().raw);
    assert!(deck.raw != standard_deck().raw || shuffled_deck().raw != standard_deck().raw);
}

#[test]
fn round_states_begin_as_the_round_says() {
    match RoundState::new(Round::Bet { starting_player: 1 }) {
        RoundState::Bet { player, last_bet, all_bets } => {
            assert_eq!(player, 1);
            assert!(last_bet.is_none());
            assert!(all_bets.is_empty());
        }
        _ => panic!("not a round of betting"),
    }
    match RoundState::new(Round::DrawToCommunity { quant: 3 }) {
        RoundState::DrawToCommunity { quant } => assert_eq!(quant, 3),
        _ => panic!("not a deal"),
    }
    assert!(matches!(RoundState::new(Round::Ante), RoundState::Ante));
}

fn two_cards() -> Vec<CardState> {
    vec![
        CardState { card: Card { rank: 3, suit: Suit(0) }, facing: Facing::FaceDown },
        CardState { card: Card { rank: 9, suit: Suit(2) }, facing: Facing::FaceUp },
    ]
}

#[test]
fn a_viewer_sees_own_cards_and_cards_that_lie_face_up() {
    let cards = two_cards();
    assert_eq!(
        redact_cards(&cards, false),
        vec![CardViewState::Invisible, CardViewState::Visible(cards[1])]
    );
    assert_eq!(
        redact_cards(&cards, true),
        vec![CardViewState::Visible(cards[0]), CardViewState::Visible(cards[1])]
    );
    assert_eq!(
        CardViewState::from_card_state_and_same_player(&cards[0], false),
        CardViewState::Invisible
    );
    let draw = PokerGlobalViewDiff::Draw { player: 1usize, drawn: cards.clone() };
    assert_eq!(
        draw.clone().player_diff(Some(0)),
        PokerViewDiff::Draw {
            player: 1,
            drawn: vec![CardViewState::Invisible, CardViewState::Visible(cards[1])]
        }
    );
    assert_eq!(
        draw.clone().player_diff(Some(1)),
        PokerViewDiff::Draw {
            player: 1,
            drawn: vec![CardViewState::Visible(cards[0]), CardViewState::Visible(cards[1])]
        }
    );
    assert_eq!(
        draw.player_diff(None),
        PokerViewDiff::Draw {
            player: 1,
            drawn: vec![CardViewState::Invisible, CardViewState::Visible(cards[1])]
        }
    );
    let replace =
        PokerGlobalViewDiff::Replace { player: 0usize, drawn: cards.clone(), discard: cards.clone() };
    assert_eq!(
        replace.player_diff(Some(1)),
        PokerViewDiff::Replace {
            player: 0,
            discard: vec![CardViewState::Invisible, CardViewState::Visible(cards[1])],
            drawn: vec![CardViewState::Invisible, CardViewState::Visible(cards[1])],
        }
    );
    let fold = PokerGlobalViewDiff::Common(PokerViewDiff::Fold { player: 2usize });
    assert_eq!(fold.player_diff(Some(0)), PokerViewDiff::Fold { player: 2 });
}

#[test]
fn diffs_are_renamed_by_role() {
    let names = vec!["ann".to_string(), "bob".to_string()];
    let fold = PokerViewDiff::Fold { player: 1usize };
    assert_eq!(fold.convert(&names), PokerViewDiff::Fold { player: "bob".to_string() });
    let bet = PokerViewDiff::from_blind_name(3, 0usize, "blind".to_string());
    assert_eq!(
        bet.convert(&names),
        PokerViewDiff::Bet {
            bet_kind: BetDiffKind::Blind("blind".to_string()),
            player: "ann".to_string(),
            chips: 3
        }
    );
    let draw = PokerGlobalViewDiff::Draw { player: 0usize, drawn: two_cards() };
    match draw.convert(&names) {
        PokerGlobalViewDiff::Draw { player, drawn } => {
            assert_eq!(player, "ann");
            assert_eq!(drawn, two_cards());
        }
        _ => panic!("not a draw"),
    }
}

#[test]
fn bets_are_logged_as_check_call_or_raise() {
    let check = PokerViewDiff::from_player_bet_min_bet(0usize, 0, 0, 0);
    assert_eq!(check, PokerViewDiff::Bet { bet_kind: BetDiffKind::Check, player: 0, chips: 0 });
    let stand = PokerViewDiff::from_player_bet_min_bet(0usize, 4, 4, 4);
    assert_eq!(stand, PokerViewDiff::Bet { bet_kind: BetDiffKind::Check, player: 0, chips: 0 });
    let call = PokerViewDiff::from_player_bet_min_bet(1usize, 10, 2, 10);
    assert_eq!(call, PokerViewDiff::Bet { bet_kind: BetDiffKind::Call, player: 1, chips: 8 });
    let raise = PokerViewDiff::from_player_bet_min_bet(1usize, 25, 2, 10);
    assert_eq!(
        raise,
        PokerViewDiff::Bet {
            bet_kind: BetDiffKind::Raise { diff_from_last_raise: 15, total: 25 },
            player: 1,
            chips: 25
        }
    );
}

fn view_of(state: &HandState, player: usize) -> PokerViewState {
    PokerViewState::from_handstate_and_player(state, &texas_hold_em(), &vec![], player)
}

#[test]
fn a_view_hides_the_cards_of_the_others() {
    let mut state = HandState::new(texas_hold_em(), standard_deck(), &vec![100, 80]);
    state.players[0].hand = two_cards();
    state.players[1].hand = two_cards();
    state.players[1].total_bet = 30;
    state.community_cards.push(Card { rank: 1, suit: Suit(1) });
    let mut bets = HashMap::new();
    bets.insert(1usize, 7);
    state.cur_round = Some(RoundState::Bet { player: 1, last_bet: None, all_bets: bets.clone() });
    let view = view_of(&state, 0);
    assert_eq!(view.role, 0);
    assert_eq!(view.players[0].hand, redact_cards(&two_cards(), true));
    assert_eq!(view.players[1].hand, redact_cards(&two_cards(), false));
    assert_eq!(view.players[1].hand[0], CardViewState::Invisible);
    assert_eq!(view.players[1].chips, 80);
    assert_eq!(view.players[1].total_bet, 30);
    assert_eq!(
        view.community_cards,
        vec![CardViewState::Visible(CardState {
            card: Card { rank: 1, suit: Suit(1) },
            facing: Facing::FaceUp
        })]
    );
    assert_eq!(view.bet_this_round, bets);
    assert_eq!(view.current_turn, Some(1));
    assert_eq!(view.variant.use_from_hand, 2);
    assert_eq!(view.pot(), 37);
    assert_eq!(view.bettable_chips(1), 50);
    state.cur_round = None;
    let idle = view_of(&state, 1);
    assert_eq!(idle.current_turn, None);
    assert!(idle.bet_this_round.is_empty());
    assert_eq!(idle.players[0].hand[0], CardViewState::Invisible);
}

#[test]
fn a_bet_is_valid_if_it_is_all_in_or_in_range() {
    let mut state = HandState::new(texas_hold_em(), standard_deck(), &vec![100, 80]);
    state.players[0].total_bet = 60;
    let view = view_of(&state, 0);
    assert_eq!(view.valid_bet(10, 5, 40, 0), Ok(()));
    assert_eq!(view.valid_bet(50, 45, 40, 0), Ok(()));
    assert_eq!(view.valid_bet(10, 5, 5, 0), Ok(()));
    assert_eq!(view.valid_bet(10, 5, 10, 0), Ok(()));
    assert_eq!(view.valid_bet(10, 5, 7, 0), Err("Bet less than minimum".to_string()));
    assert_eq!(view.valid_bet(10, 5, 41, 0), Err("Player has too few chips".to_string()));
    assert_eq!(view.valid_bet(10, 50, 50, 0), Err("Player has too few chips".to_string()));
    assert_eq!(view.valid_bet(10, 5, 3, 0), Err("Bet less than minimum".to_string()));
    let _ = BetResp::Bet(3 as Chips);
    let _ = PlayerState { chips: 0, hand: vec![], folded: false, total_bet: 0 };
}

#[test]
fn hold_em_counts_two_cards_of_a_hand_and_the_others_five() {
    let used = [
        ("Five Card Draw", 5),
        ("Five Card Stud", 5),
        ("Omaha Hold 'Em", 2),
        ("Seven Card Stud", 5),
        ("Texas Hold 'Em", 2),
    ];
    for (name, cards) in used {
        let desc = PokerVariantDesc { name: name.to_string(), special_cards: Vec::new() };
        assert_eq!(desc.variant().use_from_hand, cards);
    }
    let table = PokerVariants::table();
    for (i, (name, cards)) in used.iter().enumerate() {
        assert_eq!(table[i].0, *name);
        assert_eq!(table[i].1.use_from_hand, *cards);
    }
}
