use pokerrs::fold_channel::Buffers;
use pokerrs::game::{DealersChoiceResp, PokerVariants};
use pokerrs::card::Kind;
use pokerrs::bitcard::RankTuple;
use pokerrs::static_files::content_type;
use pokerrs::strength::HandStrength;
use pokerrs::table::{
    AnteRule, AnteRuleChangeDesc, AnteRuleDesc, Blind, HandLog, JoinError, LogBook,
    PokerVariantSelector, PokerVariantState, Seat, SeatedPlayer, TableRules, TableSeats,
};

#[test]
fn players_join_until_the_table_is_full() {
    let mut table = TableSeats::new();
    assert_eq!(table.join("ann".to_string(), 2, 50), Ok(Seat(0)));
    assert_eq!(table.join("ann".to_string(), 2, 50), Err(JoinError::AlreadyJoined));
    assert_eq!(table.join("bob".to_string(), 2, 50), Ok(Seat(1)));
    assert_eq!(table.join("cy".to_string(), 2, 50), Err(JoinError::Full));
    assert_eq!(table.join("ann".to_string(), 2, 50), Err(JoinError::Full));
    assert_eq!(
        table.seats,
        vec![
            SeatedPlayer { player_id: "ann".to_string(), chips: 50 },
            SeatedPlayer { player_id: "bob".to_string(), chips: 50 },
        ]
    );
}

fn table_of(chips: Vec<i32>) -> TableSeats {
    let mut table = TableSeats::new();
    for (i, c) in chips.into_iter().enumerate() {
        table.join(format!("player {}", i), 100, c).unwrap();
    }
    table
}

#[test]
fn the_deal_goes_round_and_skips_the_broke() {
    let mut table = table_of(vec![10, 0, 10, 10]);
    assert_eq!(table.next_round_roles(), vec![Seat(0), Seat(2), Seat(3)]);
    table.last_dealer = Some(Seat(0));
    assert_eq!(table.next_round_roles(), vec![Seat(2), Seat(3), Seat(0)]);
    table.last_dealer = Some(Seat(3));
    assert_eq!(table.next_round_roles(), vec![Seat(0), Seat(2), Seat(3)]);
    table.last_dealer = Some(Seat(2));
    assert_eq!(table.next_round_roles(), vec![Seat(3), Seat(0), Seat(2)]);
    assert_eq!(TableSeats::new().next_round_roles(), vec![]);
    assert!(table.can_go_on());
    assert!(!table_of(vec![10, 0, 0]).can_go_on());
}

#[test]
fn a_hand_is_settled_by_role() {
    let mut table = table_of(vec![10, 0, 10, 10]);
    table.last_dealer = Some(Seat(0));
    let roles = table.begin_round();
    assert_eq!(roles, vec![Seat(2), Seat(3), Seat(0)]);
    assert_eq!(table.last_dealer, Some(Seat(2)));
    table.settle(&roles, &vec![5, -3, -2]);
    let chips: Vec<i32> = table.seats.iter().map(|p| p.chips).collect();
    assert_eq!(chips, vec![8, 0, 15, 7]);
    assert_eq!(table.last_dealer, Some(Seat(2)));
    assert_eq!(table.next_round_roles(), vec![Seat(3), Seat(0), Seat(2)]);
}

#[test]
fn a_table_where_nobody_has_chips_has_no_dealer() {
    let mut table = table_of(vec![0, 0]);
    table.last_dealer = Some(Seat(1));
    assert_eq!(table.begin_round(), vec![]);
    assert_eq!(table.last_dealer, None);
    let mut first = table_of(vec![0, 4, 4]);
    assert_eq!(first.begin_round(), vec![Seat(1), Seat(2)]);
    assert_eq!(first.last_dealer, Some(Seat(1)));
    assert_eq!(first.begin_round(), vec![Seat(2), Seat(1)]);
    assert_eq!(first.last_dealer, Some(Seat(2)));
}

#[test]
fn the_log_is_handed_out_round_by_round() {
    let mut book = LogBook::new();
    assert_eq!(book.logs(0), vec![]);
    book.add_table_event();
    assert_eq!(book.add_hand_logs(4), (0, 4));
    assert_eq!(book.cur_len, 5);
    assert_eq!(book.logs(0), vec![HandLog { round: 0, start: 0, end: 5 }]);
    assert_eq!(book.logs(3), vec![HandLog { round: 0, start: 3, end: 5 }]);
    assert_eq!(book.logs(5), vec![]);
    assert_eq!(book.add_hand_logs(6), (4, 6));
    book.new_round();
    assert_eq!(book.old_logs, vec![HandLog { round: 1, start: 0, end: 7 }]);
    book.add_table_event();
    book.add_table_event();
    assert_eq!(
        book.logs(0),
        vec![HandLog { round: 1, start: 0, end: 7 }, HandLog { round: 1, start: 7, end: 9 }]
    );
    assert_eq!(book.logs(3), vec![HandLog { round: 1, start: 7, end: 9 }]);
    assert_eq!(book.logs(8), vec![HandLog { round: 1, start: 8, end: 9 }]);
    book.new_round();
    assert_eq!(book.old_logs[1], HandLog { round: 2, start: 7, end: 9 });
    assert_eq!(
        book.logs(7),
        vec![HandLog { round: 2, start: 7, end: 9 }, HandLog { round: 2, start: 9, end: 9 }]
    );
    assert_eq!(book.logs(9), vec![]);
}

#[test]
fn variants_rotate() {
    let mut state = PokerVariantState::from_selector(PokerVariantSelector::Rotation(
        PokerVariants::all(),
    ));
    let mut played = Vec::new();
    for _ in 0..7 {
        played.push(state.next_in_rotation().unwrap());
    }
    assert_eq!(played, vec![0, 1, 2, 3, 4, 0, 1]);
    let mut choice = PokerVariantState::from_selector(PokerVariantSelector::DealersChoice(
        PokerVariants::all(),
    ));
    assert_eq!(choice.next_in_rotation(), None);
    let mut none = PokerVariantState::Rotation {
        variants: PokerVariants { descs: vec![] },
        idx: 0,
    };
    assert_eq!(none.next_in_rotation(), None);
}

#[test]
fn blinds_grow_as_the_rule_says() {
    let constant =
        AnteRuleDesc { starting_value: 3, blinds: false, change: AnteRuleChangeDesc::Constant };
    assert_eq!(constant.rule(9, 9000), Some(AnteRule::Ante(3)));
    let by_round = AnteRuleDesc {
        starting_value: 5,
        blinds: true,
        change: AnteRuleChangeDesc::MulEveryNRounds { mul: 2, rounds: 3 },
    };
    assert_eq!(
        by_round.rule(0, 0),
        Some(AnteRule::Blinds(vec![Blind { amount: 5 }, Blind { amount: 10 }]))
    );
    assert_eq!(
        by_round.rule(7, 0),
        Some(AnteRule::Blinds(vec![Blind { amount: 20 }, Blind { amount: 40 }]))
    );
    assert_eq!(by_round.rule(300, 0), None);
    let by_time = AnteRuleDesc {
        starting_value: 1,
        blinds: false,
        change: AnteRuleChangeDesc::MulEveryNSeconds { mul: 3, seconds: 60 },
    };
    assert_eq!(by_time.rule(0, 59), Some(AnteRule::Ante(1)));
    assert_eq!(by_time.rule(0, 185), Some(AnteRule::Ante(27)));
    let never = AnteRuleDesc {
        starting_value: 1,
        blinds: false,
        change: AnteRuleChangeDesc::MulEveryNRounds { mul: 3, rounds: 0 },
    };
    assert_eq!(never.rule(4, 0), None);
    let rules = by_round.starting_rules().unwrap();
    assert_eq!(rules.min_bet, 10);
    assert_eq!(rules.ante_name, "Ante");
    assert_eq!(rules.ante, AnteRule::Blinds(vec![Blind { amount: 5 }, Blind { amount: 10 }]));
    let ante = constant.starting_rules().unwrap();
    assert_eq!((ante.min_bet, ante.ante_name.as_str()), (3, "Blind"));
    assert!(never.starting_rules().is_none());
}

#[test]
fn nothing_that_is_sent_is_lost() {
    let append = |mut acc: Vec<u8>, t: Vec<u8>| {
        acc.extend_from_slice(&t);
        acc
    };
    let mut buffers = Buffers::new(vec![0u8], vec![0u8]);
    buffers = buffers.send(&append, vec![1], vec![1]);
    assert_eq!(buffers.published, vec![0, 1]);
    assert_eq!(buffers.acc, vec![0, 1]);
    buffers = buffers.send(&append, vec![2, 3], vec![2, 3]);
    buffers = buffers.send(&append, vec![4], vec![4]);
    assert_eq!(buffers.published, vec![0, 1, 2, 3, 4]);
    assert_eq!(buffers.acc, vec![0, 1, 2, 3, 4]);
}

#[test]
fn hands_compare_with_operators() {
    let pair = HandStrength { kind: Kind::Pair(4), kickers: RankTuple::from_vec(vec![9, 2, 1]) };
    let better = HandStrength { kind: Kind::Pair(4), kickers: RankTuple::from_vec(vec![9, 3, 1]) };
    let flush = HandStrength {
        kind: Kind::Flush(RankTuple::from_vec(vec![9, 7, 5, 3, 2])),
        kickers: RankTuple::new(),
    };
    assert!(pair < better);
    assert!(better > pair);
    assert!(flush > better);
    assert!(pair <= pair);
    assert!(pair.kind >= Kind::Pair(0));
    assert!(flush.kind >= Kind::Flush(RankTuple::from_vec(vec![0])));
    assert!(Kind::WinsItAll > Kind::StraightFlush(13));
    assert!(Kind::HighCard(13) < Kind::Pair(0));
    assert!(!(Kind::Straight(5) < Kind::Straight(5)));
}

#[test]
fn a_table_begins_with_the_first_variant_of_its_rotation() {
    let variants = PokerVariants::all();
    match PokerVariantState::from(PokerVariantSelector::Rotation(variants.clone())) {
        PokerVariantState::Rotation { variants: v, idx } => {
            assert_eq!(idx, 0);
            assert_eq!(v.descs, variants.descs);
        }
        PokerVariantState::DealersChoice { .. } => panic!("a rotation was asked for"),
    }
    let choice: PokerVariantState = PokerVariantSelector::DealersChoice(variants.clone()).into();
    assert!(matches!(choice, PokerVariantState::DealersChoice { .. }));
    let resp: DealersChoiceResp = Default::default();
    assert_eq!(resp.variant_idx, 0);
    assert!(resp.special_cards.is_empty());
}

#[test]
fn the_least_bet_goes_by_the_ante_or_the_highest_blind() {
    let start = TableRules { ante: AnteRule::Ante(1), ante_name: "ante".to_string(), min_bet: 1 };
    let (same, changed) = start.with_ante(AnteRule::Ante(1));
    assert_eq!(same, start);
    assert!(!changed);
    let (grown, changed) = start.with_ante(AnteRule::Ante(4));
    assert_eq!(grown, TableRules { ante: AnteRule::Ante(4), ante_name: "ante".to_string(), min_bet: 4 });
    assert!(changed);
    let blinds = AnteRule::Blinds(vec![Blind { amount: 2 }, Blind { amount: 8 }, Blind { amount: 4 }]);
    let (blind, changed) = start.with_ante(blinds.clone());
    assert_eq!(blind.ante, blinds);
    assert_eq!(blind.min_bet, 8);
    assert!(changed);
    let (one, changed) = start.with_ante(AnteRule::Blinds(vec![Blind { amount: 1 }]));
    assert_eq!(one.min_bet, 1);
    assert!(!changed);
}

#[test]
fn rules_are_sound_when_no_amount_is_below_nothing() {
    let rules = |ante: AnteRule, min_bet: i32| TableRules { ante, ante_name: "ante".to_string(), min_bet };
    assert!(rules(AnteRule::Ante(0), 1).sound());
    assert!(!rules(AnteRule::Ante(0), 0).sound());
    assert!(!rules(AnteRule::Ante(-1), 1).sound());
    assert!(rules(AnteRule::Blinds(Vec::new()), 2).sound());
    assert!(rules(AnteRule::Blinds(vec![Blind { amount: 1 }, Blind { amount: 2 }]), 2).sound());
    assert!(!rules(AnteRule::Blinds(vec![Blind { amount: 1 }, Blind { amount: -2 }]), 2).sound());
}

#[test]
fn a_script_is_served_as_a_script() {
    assert_eq!(content_type("client/main.js"), "text/javascript");
    assert_eq!(content_type(".js"), "text/javascript");
    assert_eq!(content_type("index.html"), "");
    assert_eq!(content_type("js"), "");
    assert_eq!(content_type("main.js.map"), "");
    assert_eq!(content_type(""), "");
}
