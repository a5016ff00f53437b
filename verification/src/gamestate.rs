//! A hand as it is played: the state of the players and of the round, and
//! the steps that lead from the ante to the showdown.

use crate::bitcard::{CardTuple, CARD_TUPLE_CAPACITY};
use crate::card::{Card, PokerRoundError, VecDeck};
use crate::game::{
    BetResp, Chips, Facing, MaxReplace, PlayerRole, PokerVariant, ReplaceResp, Round, RoundView,
};
use crate::pots::{
    calc_subpots, calc_winners, can_show, chips_before, lemma_subpots, paid_up_to, pot_sum,
    showdown_key, showdown_keys, showdown_ready, showdown_strength, stakes_fit, subpot_views,
    subpots_of, top_of, total_staked, total_won, winners_fit, Subpot, Winners,
};
use crate::special_card::{SpecialCard, SpecialRules};
use crate::strength::cards_in_hand;
use crate::table::{AnteRule, Blind, TableRules};
use crate::viewstate::{bet_diff, BetDiffKind, CardViewState, PokerGlobalViewDiff, PokerViewDiff};
use std::collections::HashMap;
use vstd::prelude::*;
use vstd::string::StringExecFns;

verus! {

/// A card in a hand, and which side of it is up.
#[derive(Clone, Copy, Debug, Eq, PartialEq, Structural)]
pub struct CardState {
    pub card: Card,
    pub facing: Facing,
}

/// What a player has for the length of one hand.
#[derive(Clone, Debug, Eq, PartialEq)]
pub struct PlayerState {
    pub chips: Chips,
    pub hand: Vec<CardState>,
    pub folded: bool,
    pub total_bet: Chips,
}

/// Where a round of betting stands.
pub struct BetState {
    pub player: PlayerRole,
    pub last_bet: Option<(Option<PlayerRole>, Chips)>,
    pub all_bets: HashMap<PlayerRole, Chips>,
}

/// A hand that is being played.
pub struct HandState {
    pub deck: VecDeck,
    pub rounds: Vec<Round>,
    pub cur_round: Option<RoundState>,
    pub players: Vec<PlayerState>,
    pub community_cards: CardTuple,
    pub pending_bet: Option<(BetState, Vec<PokerGlobalViewDiff<PlayerRole>>)>,
}

/// The phase that a hand is in.
pub enum RoundState {
    Ante,
    Bet {
        player: PlayerRole,
        last_bet: Option<(Option<PlayerRole>, Chips)>,
        all_bets: HashMap<PlayerRole, Chips>,
    },
    DrawToHand { facing: Vec<Facing> },
    DrawToCommunity { quant: usize },
    Replace { player: PlayerRole, max_replace_fun: MaxReplace },
}

impl RoundState {
    /// The state in which the phase `round` begins.
    pub fn new(round: Round) -> (r: RoundState)
        ensures
            match round {
                Round::Ante => r is Ante,
                Round::Bet { starting_player } => r matches RoundState::Bet {
                    player,
                    last_bet,
                    all_bets,
                } && player == starting_player && last_bet is None && all_bets@ == Map::<
                    PlayerRole,
                    Chips,
                >::empty(),
                Round::DrawToHand { facing } => r matches RoundState::DrawToHand { facing: f } && f
                    == facing,
                Round::DrawToCommunity { quant } => r matches RoundState::DrawToCommunity {
                    quant: q,
                } && q == quant,
                Round::Replace { max_replace_fun, .. } => r matches RoundState::Replace {
                    player,
                    max_replace_fun: m,
                } && player == 1 && m == max_replace_fun,
            },
    {
        match round {
            Round::Ante => RoundState::Ante,
            Round::Bet { starting_player } => RoundState::Bet {
                player: starting_player,
                last_bet: None,
                all_bets: HashMap::new(),
            },
            Round::DrawToHand { facing } => RoundState::DrawToHand { facing },
            Round::DrawToCommunity { quant } => RoundState::DrawToCommunity { quant },
            Round::Replace { max_replace_fun, .. } => RoundState::Replace {
                player: 1,
                max_replace_fun,
            },
        }
    }
}

/// The player whose turn comes after `current_role`.
pub open spec fn turn_after(current_role: PlayerRole, num_players: int) -> PlayerRole {
    if current_role + 1 >= num_players {
        0
    } else {
        (current_role + 1) as usize
    }
}

/// The player whose turn comes after `current_role`.
pub fn next_player(current_role: PlayerRole, num_players: usize) -> (r: PlayerRole)
    ensures
        r == turn_after(current_role, num_players as int),
        num_players > 0 ==> r < num_players,
{
    if current_role >= num_players || current_role + 1 >= num_players {
        0
    } else {
        current_role + 1
    }
}

/// What `role` has bet in this round.
pub open spec fn bet_of(all_bets: Map<PlayerRole, Chips>, role: PlayerRole) -> Chips {
    if all_bets.contains_key(role) {
        all_bets[role]
    } else {
        0
    }
}

/// The chips that `p` has not bet yet.
pub open spec fn chips_left(p: PlayerState) -> int {
    p.chips - p.total_bet
}

/// All the chips of the players.
pub open spec fn chips_total(players: Seq<PlayerState>) -> int
    decreases players.len(),
{
    if players.len() == 0 {
        0
    } else {
        chips_total(players.drop_last()) + players.last().chips
    }
}

/// The bets of a round are bets of players of the hand, and none is more
/// than its player has.
pub open spec fn bets_wf(
    players: Seq<PlayerState>,
    player: PlayerRole,
    last_bet: Option<(Option<PlayerRole>, Chips)>,
    all_bets: Map<PlayerRole, Chips>,
) -> bool {
    &&& forall|role: PlayerRole| #[trigger]
        all_bets.contains_key(role) ==> role < players.len() && 0 <= all_bets[role] <= chips_left(
            players[role as int],
        )
    &&& (last_bet matches Some((_, amount)) ==> amount >= 0)
}

/// Nobody has bet more than they have, the chips of all players fit in
/// `Chips`, and the cards are cards.
pub open spec fn players_wf(players: Seq<PlayerState>) -> bool {
    &&& 0 < players.len() <= Chips::MAX
    &&& chips_total(players) <= Chips::MAX
    &&& forall|i: int| 0 <= i < players.len() ==> 0 <= (#[trigger] players[i]).total_bet <= players[i].chips
    &&& forall|i: int, k: int|
        0 <= i < players.len() && 0 <= k < players[i].hand@.len() ==> (#[trigger] players[i].hand@[k]).card.valid()
}

impl HandState {
    /// The hand is in order: see `players_wf` and `bets_wf`; and some
    /// player has not folded.
    pub open spec fn wf(self) -> bool {
        &&& players_wf(self.players@)
        &&& count_unfolded(self.players@) >= 1
        &&& forall|i: int| 0 <= i < self.deck.raw@.len() ==> (#[trigger] self.deck.raw@[i]).in_deck()
        &&& (self.cur_round matches Some(RoundState::Bet { player, last_bet, all_bets }) ==> bets_wf(
            self.players@,
            player,
            last_bet,
            all_bets@,
        ))
        &&& (self.pending_bet matches Some((bet, _)) ==> bets_wf(
            self.players@,
            bet.player,
            bet.last_bet,
            bet.all_bets@,
        ))
        &&& (self.cur_round is Some && self.cur_round->Some_0 is Bet ==> self.pending_bet is None)
    }
}

/// The same player but for the chips bet in all.
pub open spec fn with_total_bet(p: PlayerState, total_bet: Chips) -> PlayerState {
    PlayerState { chips: p.chips, hand: p.hand, folded: p.folded, total_bet }
}

/// Adds what each player has bet in this round to what they have bet in
/// all.
pub fn collect_bets(players: &mut Vec<PlayerState>, bets: &HashMap<PlayerRole, Chips>)
    requires
        forall|i: int|
            0 <= i < old(players)@.len() ==> 0 <= (#[trigger] old(players)@[i]).total_bet
                <= old(players)@[i].chips,
        forall|role: PlayerRole| #[trigger]
            bets@.contains_key(role) ==> role < old(players)@.len() && 0 <= bets@[role] <= chips_left(
                old(players)@[role as int],
            ),
    ensures
        final(players)@.len() == old(players)@.len(),
        forall|i: int|
            0 <= i < old(players)@.len() ==> #[trigger] final(players)@[i] == with_total_bet(
                old(players)@[i],
                (old(players)@[i].total_bet + bet_of(bets@, i as usize)) as Chips,
            ),
{
    broadcast use vstd::std_specs::hash::group_hash_axioms;

    let n = players.len();
    let mut i: usize = 0;
    while i < n
        invariant
            i <= n,
            n == old(players)@.len(),
            players@.len() == n,
            forall|k: int|
                0 <= k < n ==> 0 <= (#[trigger] old(players)@[k]).total_bet <= old(players)@[k].chips,
            forall|role: PlayerRole| #[trigger]
                bets@.contains_key(role) ==> role < n && 0 <= bets@[role] <= chips_left(
                    old(players)@[role as int],
                ),
            forall|k: int|
                0 <= k < i ==> #[trigger] players@[k] == with_total_bet(
                    old(players)@[k],
                    (old(players)@[k].total_bet + bet_of(bets@, k as usize)) as Chips,
                ),
            forall|k: int| i <= k < n ==> #[trigger] players@[k] == old(players)@[k],
        decreases n - i,
    {
        let bet: Chips = match bets.get(&i) {
            Some(b) => *b,
            None => 0,
        };
        assert(bet == bet_of(bets@, i));
        assert(players@[i as int] == old(players)@[i as int]);
        let total = players[i].total_bet + bet;
        players[i].total_bet = total;
        i = i + 1;
    }
}

/// What a player pays of `amount`: all of it, or what they have left.
pub open spec fn collected(p: PlayerState, amount: Chips) -> Chips {
    if chips_left(p) < amount {
        chips_left(p) as Chips
    } else {
        amount
    }
}

/// The log entry for a payment of `chips` by `role` that goes by `name`.
pub open spec fn is_blind_entry(
    entry: PokerGlobalViewDiff<PlayerRole>,
    role: PlayerRole,
    chips: Chips,
    name: Seq<char>,
) -> bool {
    entry matches PokerGlobalViewDiff::Common(
        PokerViewDiff::Bet { bet_kind: BetDiffKind::Blind(n), player, chips: c },
    ) && n@ == name && player == role && c == chips
}

/// How many players have chips.
pub open spec fn count_funded(players: Seq<PlayerState>) -> nat
    decreases players.len(),
{
    if players.len() == 0 {
        0
    } else {
        count_funded(players.drop_last()) + if players.last().chips > 0 {
            1nat
        } else {
            0nat
        }
    }
}

/// The seat that pays the first blind: the dealer where one or two
/// players have chips, and the player next to the dealer else.
pub open spec fn first_blind_seat(players: Seq<PlayerState>) -> PlayerRole {
    if count_funded(players) > 2 {
        1
    } else {
        0
    }
}

/// The seat that pays blind number `k`, the blinds going round the table.
pub open spec fn blind_seat(start: PlayerRole, n: int, k: nat) -> PlayerRole
    decreases k,
{
    if k == 0 {
        start
    } else {
        turn_after(blind_seat(start, n, (k - 1) as nat), n)
    }
}

/// What the seats have paid after the first `k` blinds.
pub open spec fn blind_bets(players: Seq<PlayerState>, blinds: Seq<Blind>, start: PlayerRole, k: nat) -> Map<
    PlayerRole,
    Chips,
>
    decreases k,
{
    if k == 0 {
        Map::empty()
    } else {
        let seat = blind_seat(start, players.len() as int, (k - 1) as nat);
        blind_bets(players, blinds, start, (k - 1) as nat).insert(
            seat,
            collected(players[seat as int], blinds[k - 1].amount),
        )
    }
}

fn funded_players(players: &Vec<PlayerState>) -> (r: usize)
    ensures
        r == count_funded(players@),
{
    let mut count: usize = 0;
    let mut i: usize = 0;
    assert(players@.take(0) =~= Seq::<PlayerState>::empty());
    while i < players.len()
        invariant
            i <= players@.len(),
            count <= i,
            count == count_funded(players@.take(i as int)),
        decreases players@.len() - i,
    {
        proof {
            assert(players@.take(i + 1).drop_last() =~= players@.take(i as int));
        }
        if players[i].chips > 0 {
            count = count + 1;
        }
        i = i + 1;
    }
    assert(players@.take(players@.len() as int) =~= players@);
    count
}

proof fn lemma_blind_seat(start: PlayerRole, n: int, k: nat)
    requires
        0 < n,
        start < n,
    ensures
        blind_seat(start, n, k) < n,
    decreases k,
{
    if k > 0 {
        lemma_blind_seat(start, n, (k - 1) as nat);
    }
}

/// Collects what is due before the cards are dealt. An ante is paid by
/// every player at once, into what they have bet in all. Blinds are paid
/// by one seat after another and open the first round of betting, which
/// is handed back for that reason. A player who has less left than is due
/// pays what they have left.
pub fn collect_ante_from_players(rule: &AnteRule, players: &mut Vec<PlayerState>) -> (r: (
    Option<BetState>,
    Vec<PokerGlobalViewDiff<PlayerRole>>,
))
    requires
        players_wf(old(players)@),
        match *rule {
            AnteRule::Ante(ante) => ante >= 0,
            AnteRule::Blinds(blinds) => forall|i: int|
                0 <= i < blinds@.len() ==> (#[trigger] blinds@[i]).amount >= 0,
        },
    ensures
        players_wf(final(players)@),
        final(players)@.len() == old(players)@.len(),
        match *rule {
            AnteRule::Ante(ante) => {
                &&& r.0 is None
                &&& r.1@.len() == old(players)@.len()
                &&& forall|i: int|
                    0 <= i < old(players)@.len() ==> #[trigger] final(players)@[i] == with_total_bet(
                        old(players)@[i],
                        (old(players)@[i].total_bet + collected(old(players)@[i], ante)) as Chips,
                    )
                &&& forall|i: int|
                    0 <= i < old(players)@.len() ==> is_blind_entry(
                        #[trigger] r.1@[i],
                        i as usize,
                        collected(old(players)@[i], ante),
                        "ante"@,
                    )
            },
            AnteRule::Blinds(blinds) => {
                let n = old(players)@.len() as int;
                let start = first_blind_seat(old(players)@);
                &&& final(players)@ == old(players)@
                &&& r.0 is Some <==> blinds@.len() > 0
                &&& r.0 matches Some(bet) ==> {
                    &&& bet.player == blind_seat(start, n, blinds@.len())
                    &&& bet.last_bet == Some((None::<PlayerRole>, blinds@.last().amount))
                    &&& bet.all_bets@ == blind_bets(old(players)@, blinds@, start, blinds@.len())
                    &&& bets_wf(old(players)@, bet.player, bet.last_bet, bet.all_bets@)
                }
                &&& r.1@.len() == blinds@.len()
                &&& forall|k: int|
                    0 <= k < blinds@.len() ==> {
                        let seat = blind_seat(start, n, k as nat);
                        is_blind_entry(
                            #[trigger] r.1@[k],
                            seat,
                            collected(old(players)@[seat as int], blinds@[k].amount),
                            "blind"@,
                        )
                    }
            },
        },
{
    broadcast use vstd::std_specs::hash::group_hash_axioms;

    let mut viewdiffs: Vec<PokerGlobalViewDiff<PlayerRole>> = Vec::new();
    let n = players.len();
    match rule {
        AnteRule::Ante(ante) => {
            let mut i: usize = 0;
            while i < n
                invariant
                    i <= n,
                    n == old(players)@.len(),
                    players@.len() == n,
                    *ante >= 0,
                    players_wf(old(players)@),
                    viewdiffs@.len() == i,
                    forall|k: int|
                        0 <= k < i ==> #[trigger] players@[k] == with_total_bet(
                            old(players)@[k],
                            (old(players)@[k].total_bet + collected(old(players)@[k], *ante)) as Chips,
                        ),
                    forall|k: int| i <= k < n ==> #[trigger] players@[k] == old(players)@[k],
                    forall|k: int|
                        0 <= k < i ==> is_blind_entry(
                            #[trigger] viewdiffs@[k],
                            k as usize,
                            collected(old(players)@[k], *ante),
                            "ante"@,
                        ),
                decreases n - i,
            {
                assert(players@[i as int] == old(players)@[i as int]);
                let left = players[i].chips - players[i].total_bet;
                let to_collect = if left < *ante {
                    left
                } else {
                    *ante
                };
                let total = players[i].total_bet + to_collect;
                players[i].total_bet = total;
                viewdiffs.push(
                    PokerGlobalViewDiff::Common(
                        PokerViewDiff::from_blind_name(to_collect, i, String::from_str("ante")),
                    ),
                );
                i = i + 1;
            }
            proof {
                lemma_same_chips(old(players)@, players@);
            }
            (None, viewdiffs)
        },
        AnteRule::Blinds(blinds) => {
            let start: PlayerRole = if funded_players(players) > 2 {
                1
            } else {
                0
            };
            proof {
                lemma_count_funded(players@);
            }
            let mut blind_role = start;
            let mut last: Option<Chips> = None;
            let mut all_bets: HashMap<PlayerRole, Chips> = HashMap::new();
            let mut k: usize = 0;
            while k < blinds.len()
                invariant
                    k <= blinds@.len(),
                    n == players@.len(),
                    players@ == old(players)@,
                    players_wf(players@),
                    start < n,
                    start == first_blind_seat(players@),
                    forall|i: int| 0 <= i < blinds@.len() ==> (#[trigger] blinds@[i]).amount >= 0,
                    blind_role == blind_seat(start, n as int, k as nat),
                    blind_role < n,
                    k == 0 ==> last is None,
                    k > 0 ==> last == Some(blinds@[k - 1].amount),
                    all_bets@ == blind_bets(players@, blinds@, start, k as nat),
                    forall|role: PlayerRole| #[trigger]
                        all_bets@.contains_key(role) ==> role < n && 0 <= all_bets@[role]
                            <= chips_left(players@[role as int]),
                    viewdiffs@.len() == k,
                    forall|j: int|
                        0 <= j < k ==> {
                            let seat = blind_seat(start, n as int, j as nat);
                            is_blind_entry(
                                #[trigger] viewdiffs@[j],
                                seat,
                                collected(players@[seat as int], blinds@[j].amount),
                                "blind"@,
                            )
                        },
                decreases blinds@.len() - k,
            {
                let amount = blinds[k].amount;
                let left = players[blind_role].chips - players[blind_role].total_bet;
                let to_collect = if left < amount {
                    left
                } else {
                    amount
                };
                last = Some(amount);
                all_bets.insert(blind_role, to_collect);
                viewdiffs.push(
                    PokerGlobalViewDiff::Common(
                        PokerViewDiff::from_blind_name(
                            to_collect,
                            blind_role,
                            String::from_str("blind"),
                        ),
                    ),
                );
                blind_role = next_player(blind_role, n);
                k = k + 1;
            }
            let bet = match last {
                Some(amount) => Some(
                    BetState { player: blind_role, last_bet: Some((None, amount)), all_bets },
                ),
                None => None,
            };
            (bet, viewdiffs)
        },
    }
}

proof fn lemma_count_funded(players: Seq<PlayerState>)
    ensures
        count_funded(players) <= players.len(),
    decreases players.len(),
{
    if players.len() > 0 {
        lemma_count_funded(players.drop_last());
    }
}

/// Players who have the same chips as before have the same chips in all.
proof fn lemma_same_chips(before: Seq<PlayerState>, after: Seq<PlayerState>)
    requires
        before.len() == after.len(),
        forall|i: int| 0 <= i < before.len() ==> (#[trigger] after[i]).chips == before[i].chips,
    ensures
        chips_total(after) == chips_total(before),
    decreases before.len(),
{
    if before.len() > 0 {
        let b = before.drop_last();
        let a = after.drop_last();
        assert forall|i: int| 0 <= i < b.len() implies (#[trigger] a[i]).chips == b[i].chips by {
            assert(a[i] == after[i]);
            assert(b[i] == before[i]);
        }
        lemma_same_chips(b, a);
        assert(after.last() == after[after.len() - 1]);
        assert(before.last() == before[before.len() - 1]);
    }
}


/// The hands of the players, by role.
pub open spec fn hands_of(players: Seq<PlayerState>) -> Seq<Seq<CardState>> {
    Seq::new(players.len(), |i: int| players[i].hand@)
}

/// The players are the same but for their hands.
pub open spec fn same_but_hands(before: Seq<PlayerState>, after: Seq<PlayerState>) -> bool {
    &&& before.len() == after.len()
    &&& forall|i: int|
        0 <= i < before.len() ==> {
            &&& (#[trigger] after[i]).chips == before[i].chips
            &&& after[i].folded == before[i].folded
            &&& after[i].total_bet == before[i].total_bet
        }
}

/// The hands and the deck after one card, faced `f`, has been dealt to
/// each of the first `k` players who have not folded; `None` where the
/// deck runs out.
pub open spec fn dealt_round(
    players: Seq<PlayerState>,
    hands: Seq<Seq<CardState>>,
    deck: Seq<Card>,
    f: Facing,
    k: int,
) -> Option<(Seq<Seq<CardState>>, Seq<Card>)>
    decreases k,
{
    if k <= 0 {
        Some((hands, deck))
    } else {
        match dealt_round(players, hands, deck, f, k - 1) {
            None => None,
            Some((h, d)) => if players[k - 1].folded {
                Some((h, d))
            } else if d.len() == 0 {
                None
            } else {
                Some(
                    (
                        h.update(k - 1, h[k - 1].push(CardState { card: d.last(), facing: f })),
                        d.drop_last(),
                    ),
                )
            },
        }
    }
}

/// The hands and the deck after the first `j` cards of `facing` have been
/// dealt, each to all players in turn; `None` where the deck runs out.
pub open spec fn dealt(
    players: Seq<PlayerState>,
    hands: Seq<Seq<CardState>>,
    deck: Seq<Card>,
    facing: Seq<Facing>,
    j: int,
) -> Option<(Seq<Seq<CardState>>, Seq<Card>)>
    decreases j,
{
    if j <= 0 {
        Some((hands, deck))
    } else {
        match dealt(players, hands, deck, facing, j - 1) {
            None => None,
            Some((h, d)) => dealt_round(players, h, d, facing[j - 1], players.len() as int),
        }
    }
}

proof fn lemma_round_fails(
    players: Seq<PlayerState>,
    hands: Seq<Seq<CardState>>,
    deck: Seq<Card>,
    f: Facing,
    k: int,
    m: int,
)
    requires
        0 <= k <= m,
        dealt_round(players, hands, deck, f, k) is None,
    ensures
        dealt_round(players, hands, deck, f, m) is None,
    decreases m - k,
{
    if k < m {
        lemma_round_fails(players, hands, deck, f, k, m - 1);
    }
}

proof fn lemma_deal_fails(
    players: Seq<PlayerState>,
    hands: Seq<Seq<CardState>>,
    deck: Seq<Card>,
    facing: Seq<Facing>,
    j: int,
    m: int,
)
    requires
        0 <= j <= m,
        dealt(players, hands, deck, facing, j) is None,
    ensures
        dealt(players, hands, deck, facing, m) is None,
    decreases m - j,
{
    if j < m {
        lemma_deal_fails(players, hands, deck, facing, j, m - 1);
    }
}

/// The cards that are dealt in one round to the first `k` players, each
/// with the player who gets it, in the order in which they are dealt.
pub open spec fn dealt_log_round(
    players: Seq<PlayerState>,
    hands: Seq<Seq<CardState>>,
    deck: Seq<Card>,
    f: Facing,
    k: int,
) -> Seq<(PlayerRole, CardState)>
    decreases k,
{
    if k <= 0 {
        Seq::empty()
    } else {
        let rest = dealt_log_round(players, hands, deck, f, k - 1);
        match dealt_round(players, hands, deck, f, k - 1) {
            None => rest,
            Some((h, d)) => if !players[k - 1].folded && d.len() > 0 {
                rest.push(((k - 1) as usize, CardState { card: d.last(), facing: f }))
            } else {
                rest
            },
        }
    }
}

/// The cards that are dealt for the first `j` entries of `facing`, each
/// with the player who gets it, in the order in which they are dealt.
pub open spec fn dealt_log(
    players: Seq<PlayerState>,
    hands: Seq<Seq<CardState>>,
    deck: Seq<Card>,
    facing: Seq<Facing>,
    j: int,
) -> Seq<(PlayerRole, CardState)>
    decreases j,
{
    if j <= 0 {
        Seq::empty()
    } else {
        let rest = dealt_log(players, hands, deck, facing, j - 1);
        match dealt(players, hands, deck, facing, j - 1) {
            None => rest,
            Some((h, d)) => rest + dealt_log_round(players, h, d, facing[j - 1], players.len() as int),
        }
    }
}

/// The entries `added` to the log are one for each card of `cards`.
pub open spec fn logs_draws(
    added: Seq<PokerGlobalViewDiff<PlayerRole>>,
    cards: Seq<(PlayerRole, CardState)>,
) -> bool {
    &&& added.len() == cards.len()
    &&& forall|m: int| 0 <= m < cards.len() ==> is_draw_entry(#[trigger] added[m], cards[m].0, cards[m].1)
}

/// The log entry for one card dealt to `role`.
pub open spec fn is_draw_entry(entry: PokerGlobalViewDiff<PlayerRole>, role: PlayerRole, card: CardState) -> bool {
    entry matches PokerGlobalViewDiff::Draw { player, drawn } && player == role && drawn@ == seq![card]
}

/// Deals cards to the hands: for each entry of `facing` one card to each
/// player who has not folded, in the order of the roles.
pub fn deal_to_hands(
    state: &mut HandState,
    facing: &Vec<Facing>,
    viewdiffs: &mut Vec<PokerGlobalViewDiff<PlayerRole>>,
) -> (r: Result<(), PokerRoundError>)
    requires
        old(state).wf(),
    ensures
        ({
            let before = old(state).players@;
            let end = dealt(
                before,
                hands_of(before),
                old(state).deck.raw@,
                facing@,
                facing@.len() as int,
            );
            &&& r is Ok <==> end is Some
            &&& r is Err ==> r->Err_0@ == "Ran out of cards in deck"@
            &&& same_but_hands(before, final(state).players@)
            &&& r is Ok ==> {
                &&& final(state).wf()
                &&& hands_of(final(state).players@) == end->Some_0.0
                &&& final(state).deck.raw@ == end->Some_0.1
                &&& final(state).rounds == old(state).rounds
                &&& final(state).cur_round == old(state).cur_round
                &&& final(state).community_cards == old(state).community_cards
                &&& final(state).pending_bet == old(state).pending_bet
                &&& final(viewdiffs)@.len() >= old(viewdiffs)@.len()
                &&& final(viewdiffs)@.take(old(viewdiffs)@.len() as int) == old(viewdiffs)@
                &&& logs_draws(
                    final(viewdiffs)@.skip(old(viewdiffs)@.len() as int),
                    dealt_log(
                        before,
                        hands_of(before),
                        old(state).deck.raw@,
                        facing@,
                        facing@.len() as int,
                    ),
                )
            }
        }),
{
    let ghost before = state.players@;
    let ghost hands0 = hands_of(before);
    let ghost deck0 = state.deck.raw@;
    let ghost log0 = viewdiffs@;
    let n = state.players.len();
    let mut j: usize = 0;
    assert(viewdiffs@.take(log0.len() as int) =~= log0);
    while j < facing.len()
        invariant
            j <= facing@.len(),
            n == before.len(),
            before == old(state).players@,
            hands0 == hands_of(before),
            deck0 == old(state).deck.raw@,
            log0 == old(viewdiffs)@,
            old(state).wf(),
            state.wf(),
            same_but_hands(before, state.players@),
            dealt(before, hands0, deck0, facing@, j as int) == Some(
                (hands_of(state.players@), state.deck.raw@),
            ),
            state.rounds == old(state).rounds,
            state.cur_round == old(state).cur_round,
            state.community_cards == old(state).community_cards,
            state.pending_bet == old(state).pending_bet,
            viewdiffs@.len() >= log0.len(),
            viewdiffs@.take(log0.len() as int) == log0,
            logs_draws(
                viewdiffs@.skip(log0.len() as int),
                dealt_log(before, hands0, deck0, facing@, j as int),
            ),
        decreases facing@.len() - j,
    {
        let f = facing[j];
        let ghost hands_j = hands_of(state.players@);
        let ghost deck_j = state.deck.raw@;
        let ghost log_j = dealt_log(before, hands0, deck0, facing@, j as int);
        let mut role: usize = 0;
        proof {
            assert(log_j + dealt_log_round(before, hands_j, deck_j, f, 0) =~= log_j);
        }
        while role < n
            invariant
                role <= n,
                j < facing@.len(),
                f == facing@[j as int],
                n == before.len(),
                before == old(state).players@,
                hands0 == hands_of(before),
                deck0 == old(state).deck.raw@,
                log0 == old(viewdiffs)@,
                old(state).wf(),
                state.wf(),
                same_but_hands(before, state.players@),
                dealt(before, hands0, deck0, facing@, j as int) == Some((hands_j, deck_j)),
                dealt_round(before, hands_j, deck_j, f, role as int) == Some(
                    (hands_of(state.players@), state.deck.raw@),
                ),
                state.rounds == old(state).rounds,
                state.cur_round == old(state).cur_round,
                state.community_cards == old(state).community_cards,
                state.pending_bet == old(state).pending_bet,
                viewdiffs@.len() >= log0.len(),
                viewdiffs@.take(log0.len() as int) == log0,
                log_j == dealt_log(before, hands0, deck0, facing@, j as int),
                logs_draws(
                    viewdiffs@.skip(log0.len() as int),
                    log_j + dealt_log_round(before, hands_j, deck_j, f, role as int),
                ),
            decreases n - role,
        {
            if !state.players[role].folded {
                let ghost players_before = state.players@;
                let ghost deck_before = state.deck.raw@;
                let ghost log_before = viewdiffs@;
                match state.deck.draw() {
                    Err(e) => {
                        proof {
                            assert(dealt_round(before, hands_j, deck_j, f, role + 1) is None);
                            lemma_round_fails(before, hands_j, deck_j, f, role + 1, n as int);
                            assert(dealt(before, hands0, deck0, facing@, j + 1) is None);
                            lemma_deal_fails(
                                before,
                                hands0,
                                deck0,
                                facing@,
                                j + 1,
                                facing@.len() as int,
                            );
                        }
                        return Err(e);
                    },
                    Ok(card) => {
                        let newcard = CardState { card, facing: f };
                        let mut drawn: Vec<CardState> = Vec::new();
                        drawn.push(newcard);
                        assert(drawn@ =~= seq![newcard]);
                        viewdiffs.push(PokerGlobalViewDiff::Draw { player: role, drawn });
                        state.players[role].hand.push(newcard);
                        proof {
                            assert(card.in_deck());
                            assert(hands_of(state.players@) =~= hands_of(players_before).update(
                                role as int,
                                hands_of(players_before)[role as int].push(newcard),
                            ));
                            assert(viewdiffs@.take(log0.len() as int) =~= log_before.take(
                                log0.len() as int,
                            ));
                            let cards_before = log_j + dealt_log_round(
                                before,
                                hands_j,
                                deck_j,
                                f,
                                role as int,
                            );
                            let cards_now = log_j + dealt_log_round(
                                before,
                                hands_j,
                                deck_j,
                                f,
                                role + 1,
                            );
                            assert(cards_now =~= cards_before.push((role, newcard)));
                            let added = viewdiffs@.skip(log0.len() as int);
                            let added_before = log_before.skip(log0.len() as int);
                            assert(added =~= added_before.push(viewdiffs@.last()));
                            assert forall|m: int| 0 <= m < cards_now.len() implies is_draw_entry(
                                #[trigger] added[m],
                                cards_now[m].0,
                                cards_now[m].1,
                            ) by {
                                if m < cards_before.len() {
                                    assert(added[m] == added_before[m]);
                                }
                            }
                            lemma_same_chips(players_before, state.players@);
                            lemma_same_unfolded(players_before, state.players@);
                            assert forall|i: int, k: int|
                                0 <= i < state.players@.len() && 0 <= k
                                    < state.players@[i].hand@.len() implies (
                            #[trigger] state.players@[i].hand@[k]).card.valid() by {
                                if i == role && k == players_before[i].hand@.len() {
                                } else {
                                    assert(state.players@[i].hand@[k] == players_before[i].hand@[k]);
                                }
                            }
                        }
                    },
                }
            }
            role = role + 1;
        }
        proof {
            assert(dealt_log(before, hands0, deck0, facing@, j + 1) =~= log_j + dealt_log_round(
                before,
                hands_j,
                deck_j,
                f,
                n as int,
            ));
        }
        j = j + 1;
    }
    Ok(())
}

/// The last `quant` cards of the deck, the last one first.
pub open spec fn top_cards(deck: Seq<Card>, quant: int) -> Seq<Card> {
    Seq::new(quant as nat, |i: int| deck[deck.len() - 1 - i])
}

/// The log entry for cards dealt to the community.
pub open spec fn is_community_entry(entry: PokerGlobalViewDiff<PlayerRole>, cards: Seq<Card>) -> bool {
    entry matches PokerGlobalViewDiff::Common(PokerViewDiff::CommunityDraw { drawn }) && drawn@
        == Seq::new(
        cards.len(),
        |i: int| CardViewState::Visible(CardState { card: cards[i], facing: Facing::FaceUp }),
    )
}

/// Deals `quant` cards to the community, face up.
pub fn deal_to_community(
    state: &mut HandState,
    quant: usize,
    viewdiffs: &mut Vec<PokerGlobalViewDiff<PlayerRole>>,
) -> (r: Result<(), PokerRoundError>)
    requires
        old(state).wf(),
        old(state).community_cards@.len() + quant <= CARD_TUPLE_CAPACITY,
    ensures
        r is Ok <==> quant <= old(state).deck.raw@.len(),
        r is Err ==> r->Err_0@ == "Ran out of cards in deck"@,
        final(state).players == old(state).players,
        r is Ok ==> {
            let drawn = top_cards(old(state).deck.raw@, quant as int);
            &&& final(state).wf()
            &&& final(state).deck.raw@ == old(state).deck.raw@.take(
                old(state).deck.raw@.len() - quant,
            )
            &&& final(state).community_cards@ == old(state).community_cards@ + drawn
            &&& final(state).players == old(state).players
            &&& final(state).rounds == old(state).rounds
            &&& final(state).cur_round == old(state).cur_round
            &&& final(state).pending_bet == old(state).pending_bet
            &&& final(viewdiffs)@.len() == old(viewdiffs)@.len() + 1
            &&& final(viewdiffs)@.take(old(viewdiffs)@.len() as int) == old(viewdiffs)@
            &&& is_community_entry(final(viewdiffs)@.last(), drawn)
        },
{
    let ghost deck0 = state.deck.raw@;
    let ghost log0 = viewdiffs@;
    let mut newcards: Vec<Card> = Vec::new();
    let mut i: usize = 0;
    while i < quant
        invariant
            i <= quant,
            i <= deck0.len(),
            deck0 == old(state).deck.raw@,
            old(state).wf(),
            state.deck.raw@ == deck0.take(deck0.len() - i),
            newcards@ == top_cards(deck0, i as int),
            state.players == old(state).players,
            state.rounds == old(state).rounds,
            state.cur_round == old(state).cur_round,
            state.pending_bet == old(state).pending_bet,
            state.community_cards == old(state).community_cards,
        decreases quant - i,
    {
        match state.deck.draw() {
            Err(e) => {
                return Err(e);
            },
            Ok(card) => {
                newcards.push(card);
                proof {
                    assert(state.deck.raw@ =~= deck0.take(deck0.len() - (i + 1)));
                    assert(newcards@ =~= top_cards(deck0, i + 1));
                }
            },
        }
        i = i + 1;
    }
    let mut drawn: Vec<CardViewState> = Vec::new();
    let ghost community0 = state.community_cards@;
    let mut k: usize = 0;
    while k < newcards.len()
        invariant
            k <= newcards@.len(),
            newcards@.len() == quant,
            newcards@ == top_cards(deck0, quant as int),
            quant <= deck0.len(),
            deck0 == old(state).deck.raw@,
            old(state).wf(),
            community0.len() + quant <= CARD_TUPLE_CAPACITY,
            state.community_cards@ == community0 + newcards@.take(k as int),
            state.deck.raw@ == deck0.take(deck0.len() - quant),
            state.players == old(state).players,
            state.rounds == old(state).rounds,
            state.cur_round == old(state).cur_round,
            state.pending_bet == old(state).pending_bet,
            drawn@.len() == k,
            forall|m: int|
                0 <= m < k ==> drawn@[m] == CardViewState::Visible(
                    CardState { card: newcards@[m], facing: Facing::FaceUp },
                ),
        decreases newcards@.len() - k,
    {
        let card = newcards[k];
        proof {
            assert(card == deck0[deck0.len() - 1 - k]);
            assert(deck0[deck0.len() - 1 - k].in_deck());
            assert(newcards@.take(k + 1) =~= newcards@.take(k as int).push(card));
        }
        let mut community = state.community_cards;
        community.push(card);
        state.community_cards = community;
        assert(state.community_cards@ =~= community0 + newcards@.take(k + 1));
        drawn.push(CardViewState::Visible(CardState { card, facing: Facing::FaceUp }));
        k = k + 1;
    }
    proof {
        assert(newcards@.take(quant as int) =~= newcards@);
        assert(drawn@ =~= Seq::new(
            newcards@.len(),
            |i: int| CardViewState::Visible(CardState { card: newcards@[i], facing: Facing::FaceUp }),
        ));
    }
    viewdiffs.push(PokerGlobalViewDiff::Common(PokerViewDiff::CommunityDraw { drawn }));
    proof {
        assert(viewdiffs@.take(log0.len() as int) =~= log0);
        assert forall|i: int| 0 <= i < state.deck.raw@.len() implies (#[trigger] state.deck.raw@[i]).in_deck() by {
            assert(state.deck.raw@[i] == deck0[i]);
        }
    }
    Ok(())
}

/// The hand and the deck after the cards at the first `k` of the
/// positions `idxs` have each been replaced by the last card of the deck.
pub open spec fn replaced(hand: Seq<CardState>, deck: Seq<Card>, idxs: Seq<usize>, k: int) -> (
    Seq<CardState>,
    Seq<Card>,
)
    decreases k,
{
    if k <= 0 {
        (hand, deck)
    } else {
        let (h, d) = replaced(hand, deck, idxs, k - 1);
        let idx = idxs[k - 1] as int;
        (h.update(idx, CardState { card: d.last(), facing: h[idx].facing }), d.drop_last())
    }
}

proof fn lemma_replaced(hand: Seq<CardState>, deck: Seq<Card>, idxs: Seq<usize>, k: int)
    requires
        0 <= k <= idxs.len(),
        k <= deck.len(),
        forall|i: int| 0 <= i < idxs.len() ==> (#[trigger] idxs[i]) < hand.len(),
    ensures
        replaced(hand, deck, idxs, k).0.len() == hand.len(),
        replaced(hand, deck, idxs, k).1 == deck.take(deck.len() - k),
    decreases k,
{
    if k > 0 {
        lemma_replaced(hand, deck, idxs, k - 1);
        assert(deck.take(deck.len() - (k - 1)).drop_last() =~= deck.take(deck.len() - k));
    } else {
        assert(deck.take(deck.len() as int) =~= deck);
    }
}


/// What the engine does next, or asks for.
pub enum HandAction {
    /// The hand goes on without anything asked of anyone.
    Continue,
    /// `player` is to bet: no less than `call_amount` to stay in, and no
    /// less than `min_bet` to raise.
    Bet { player: PlayerRole, call_amount: Chips, min_bet: Chips },
    /// `player` may give back up to `max_can_replace` cards.
    Replace { player: PlayerRole, max_can_replace: usize },
    /// The hand is over: what each player has won or lost, by role.
    Finished { deltas: Vec<Chips> },
}

/// How many players have not folded.
pub open spec fn count_unfolded(players: Seq<PlayerState>) -> nat
    decreases players.len(),
{
    if players.len() == 0 {
        0
    } else {
        count_unfolded(players.drop_last()) + if players.last().folded {
            0nat
        } else {
            1nat
        }
    }
}

/// How many players have neither folded nor bet all that they have.
pub open spec fn count_in_play(players: Seq<PlayerState>, all_bets: Map<PlayerRole, Chips>) -> nat
    decreases players.len(),
{
    if players.len() == 0 {
        0
    } else {
        let p = players.last();
        let role = (players.len() - 1) as usize;
        count_in_play(players.drop_last(), all_bets) + if !p.folded && chips_left(p) != bet_of(
            all_bets,
            role,
        ) {
            1nat
        } else {
            0nat
        }
    }
}

/// Twice `amount`, as far as `Chips` can hold it.
pub open spec fn doubled(amount: Chips) -> Chips {
    if amount > Chips::MAX / 2 {
        Chips::MAX
    } else {
        (2 * amount) as Chips
    }
}

/// The bet to match and the least raise: twice the last bet, or the
/// minimum of the table where nothing has been bet yet.
pub open spec fn call_and_min(last_bet: Option<(Option<PlayerRole>, Chips)>, table_min: Chips) -> (
    Chips,
    Chips,
) {
    match last_bet {
        Some((_, amount)) => if amount == 0 {
            (0, table_min)
        } else {
            (amount, doubled(amount))
        },
        None => (0, table_min),
    }
}

/// The round of betting is over: the turn is back at the player who bet
/// last, or no more than one player could still bet.
pub open spec fn round_over(
    players: Seq<PlayerState>,
    player: PlayerRole,
    last_bet: Option<(Option<PlayerRole>, Chips)>,
    all_bets: Map<PlayerRole, Chips>,
) -> bool {
    (last_bet matches Some((Some(p), _)) && p == player) || count_in_play(players, all_bets) <= 1
}

/// `player` is still in the hand and has chips left to bet.
pub open spec fn can_act(players: Seq<PlayerState>, player: PlayerRole, all_bets: Map<PlayerRole, Chips>) -> bool {
    !players[player as int].folded && players[player as int].chips > players[player as int].total_bet
        + bet_of(all_bets, player)
}

fn unfolded_players(players: &Vec<PlayerState>) -> (r: usize)
    ensures
        r == count_unfolded(players@),
{
    let mut count: usize = 0;
    let mut i: usize = 0;
    assert(players@.take(0) =~= Seq::<PlayerState>::empty());
    while i < players.len()
        invariant
            i <= players@.len(),
            count <= i,
            count == count_unfolded(players@.take(i as int)),
        decreases players@.len() - i,
    {
        proof {
            assert(players@.take(i + 1).drop_last() =~= players@.take(i as int));
        }
        if !players[i].folded {
            count = count + 1;
        }
        i = i + 1;
    }
    assert(players@.take(players@.len() as int) =~= players@);
    count
}

fn players_in_play(players: &Vec<PlayerState>, all_bets: &HashMap<PlayerRole, Chips>) -> (r: usize)
    ensures
        r == count_in_play(players@, all_bets@),
{
    broadcast use vstd::std_specs::hash::group_hash_axioms;

    let mut count: usize = 0;
    let mut i: usize = 0;
    assert(players@.take(0) =~= Seq::<PlayerState>::empty());
    while i < players.len()
        invariant
            i <= players@.len(),
            count <= i,
            count == count_in_play(players@.take(i as int), all_bets@),
        decreases players@.len() - i,
    {
        proof {
            assert(players@.take(i + 1).drop_last() =~= players@.take(i as int));
        }
        let bet: Chips = match all_bets.get(&i) {
            Some(b) => *b,
            None => 0,
        };
        let p = &players[i];
        if !p.folded && (p.chips as i64) - (p.total_bet as i64) != bet as i64 {
            count = count + 1;
        }
        i = i + 1;
    }
    assert(players@.take(players@.len() as int) =~= players@);
    count
}

/// Players who have folded or not as they had before are as many still
/// in the hand as before.
proof fn lemma_same_unfolded(before: Seq<PlayerState>, after: Seq<PlayerState>)
    requires
        before.len() == after.len(),
        forall|i: int| 0 <= i < before.len() ==> (#[trigger] after[i]).folded == before[i].folded,
    ensures
        count_unfolded(after) == count_unfolded(before),
    decreases before.len(),
{
    if before.len() > 0 {
        let b = before.drop_last();
        let a = after.drop_last();
        assert forall|i: int| 0 <= i < b.len() implies (#[trigger] a[i]).folded == b[i].folded by {
            assert(a[i] == after[i]);
            assert(b[i] == before[i]);
        }
        lemma_same_unfolded(b, a);
        assert(after.last() == after[after.len() - 1]);
        assert(before.last() == before[before.len() - 1]);
    }
}

/// One player more has folded: one fewer is still in the hand.
proof fn lemma_one_folds(before: Seq<PlayerState>, after: Seq<PlayerState>, who: int)
    requires
        before.len() == after.len(),
        0 <= who < before.len(),
        !before[who].folded,
        after[who].folded,
        forall|i: int|
            0 <= i < before.len() && i != who ==> (#[trigger] after[i]).folded == before[i].folded,
    ensures
        count_unfolded(after) == count_unfolded(before) - 1,
    decreases before.len(),
{
    let b = before.drop_last();
    let a = after.drop_last();
    assert(after.last() == after[after.len() - 1]);
    assert(before.last() == before[before.len() - 1]);
    if who == before.len() - 1 {
        assert forall|i: int| 0 <= i < b.len() implies (#[trigger] a[i]).folded == b[i].folded by {
            assert(a[i] == after[i]);
            assert(b[i] == before[i]);
        }
        lemma_same_unfolded(b, a);
    } else {
        assert forall|i: int| 0 <= i < b.len() && i != who implies (#[trigger] a[i]).folded
            == b[i].folded by {
            assert(a[i] == after[i]);
            assert(b[i] == before[i]);
        }
        assert(a[who] == after[who] && b[who] == before[who]);
        lemma_one_folds(b, a, who);
    }
}

/// Players who can still bet have not folded.
proof fn lemma_in_play_unfolded(players: Seq<PlayerState>, all_bets: Map<PlayerRole, Chips>)
    ensures
        count_in_play(players, all_bets) <= count_unfolded(players),
    decreases players.len(),
{
    if players.len() > 0 {
        lemma_in_play_unfolded(players.drop_last(), all_bets);
    }
}

/// The first player who has not folded.
pub open spec fn first_unfolded(players: Seq<PlayerState>, from: int) -> Option<PlayerRole>
    decreases players.len() - from,
{
    if from < 0 || from >= players.len() {
        None
    } else if !players[from].folded {
        Some(from as usize)
    } else {
        first_unfolded(players, from + 1)
    }
}

fn find_unfolded(players: &Vec<PlayerState>) -> (r: Option<PlayerRole>)
    ensures
        r == first_unfolded(players@, 0),
        r matches Some(role) ==> role < players@.len() && !players@[role as int].folded,
{
    let mut i: usize = 0;
    while i < players.len()
        invariant
            i <= players@.len(),
            first_unfolded(players@, 0) == first_unfolded(players@, i as int),
        decreases players@.len() - i,
    {
        if !players[i].folded {
            return Some(i);
        }
        i = i + 1;
    }
    None
}

/// What the hand costs or brings each player: what they win of the pot
/// less what they have bet.
pub open spec fn settles(
    players: Seq<PlayerState>,
    pots: Seq<(Subpot<PlayerRole>, Vec<PlayerRole>)>,
    deltas: Seq<Chips>,
) -> bool {
    &&& deltas.len() == players.len()
    &&& forall|i: int|
        0 <= i < players.len() ==> #[trigger] deltas[i] == total_won(
            pots,
            i as usize,
            pots.len() as int,
        ) - players[i].total_bet
}

proof fn lemma_stakes_fit(players: Seq<PlayerState>)
    requires
        forall|i: int| 0 <= i < players.len() ==> 0 <= (#[trigger] players[i]).total_bet <= players[i].chips,
    ensures
        0 <= total_staked(players) <= chips_total(players),
    decreases players.len(),
{
    if players.len() > 0 {
        let head = players.drop_last();
        assert forall|i: int| 0 <= i < head.len() implies 0 <= (#[trigger] head[i]).total_bet
            <= head[i].chips by {
            assert(head[i] == players[i]);
        }
        lemma_stakes_fit(head);
        assert(players.last() == players[players.len() - 1]);
    }
}

fn net_deltas(winners: &Winners<PlayerRole>, players: &Vec<PlayerState>) -> (deltas: Vec<Chips>)
    requires
        winners_fit(winners.winners_by_pot@),
        forall|i: int| 0 <= i < players@.len() ==> 0 <= (#[trigger] players@[i]).total_bet,
    ensures
        settles(players@, winners.winners_by_pot@, deltas@),
{
    broadcast use vstd::std_specs::hash::group_hash_axioms;

    let totals = winners.totals();
    let ghost pots = winners.winners_by_pot@;
    let mut deltas: Vec<Chips> = Vec::new();
    let mut i: usize = 0;
    while i < players.len()
        invariant
            i <= players@.len(),
            pots == winners.winners_by_pot@,
            winners_fit(pots),
            forall|i: int| 0 <= i < players@.len() ==> 0 <= (#[trigger] players@[i]).total_bet,
            forall|who: PlayerRole| #[trigger]
                totals@.contains_key(who) <==> crate::pots::wins_in(pots, who, pots.len() as int),
            forall|who: PlayerRole| #[trigger]
                totals@.contains_key(who) ==> totals@[who] == total_won(pots, who, pots.len() as int),
            deltas@.len() == i,
            forall|k: int|
                0 <= k < i ==> #[trigger] deltas@[k] == total_won(pots, k as usize, pots.len() as int)
                    - players@[k].total_bet,
        decreases players@.len() - i,
    {
        let won: Chips = match totals.get(&i) {
            Some(v) => *v,
            None => 0,
        };
        proof {
            if !totals@.contains_key(i) {
                crate::pots::lemma_no_winnings(pots, i, pots.len() as int);
            }
            crate::pots::lemma_winnings_fit(pots, i);
        }
        deltas.push(won - players[i].total_bet);
        i = i + 1;
    }
    deltas
}

/// The cards of `hand`, all face up.
pub open spec fn face_up(hand: Seq<CardState>) -> Seq<CardState> {
    Seq::new(hand.len(), |i: int| CardState { card: hand[i].card, facing: Facing::FaceUp })
}

/// The cards among the first `k` of `hand` that lie face down, each with
/// its position, as they look once they are turned over.
pub open spec fn newly_shown(hand: Seq<CardState>, k: int) -> Seq<(usize, CardViewState)>
    decreases k,
{
    if k <= 0 {
        Seq::empty()
    } else {
        let rest = newly_shown(hand, k - 1);
        if hand[k - 1].facing == Facing::FaceDown {
            rest.push(
                (
                    (k - 1) as usize,
                    CardViewState::Visible(
                        CardState { card: hand[k - 1].card, facing: Facing::FaceUp },
                    ),
                ),
            )
        } else {
            rest
        }
    }
}

/// The player whose turn is `k` turns after that of `start`.
pub open spec fn seat_after(start: PlayerRole, n: int, k: int) -> PlayerRole {
    if start + k >= n {
        (start + k - n) as usize
    } else {
        (start + k) as usize
    }
}

/// The players who show cards in the first `k` turns from `start`: those
/// who have not folded and hold a card that lies face down.
pub open spec fn showing(players: Seq<PlayerState>, start: PlayerRole, k: int) -> Seq<PlayerRole>
    decreases k,
{
    if k <= 0 {
        Seq::empty()
    } else {
        let rest = showing(players, start, k - 1);
        let role = seat_after(start, players.len() as int, k - 1);
        let p = players[role as int];
        if !p.folded && newly_shown(p.hand@, p.hand@.len() as int).len() > 0 {
            rest.push(role)
        } else {
            rest
        }
    }
}

/// The log entry for the cards that `player` shows.
pub open spec fn is_show_entry(
    entry: PokerGlobalViewDiff<PlayerRole>,
    role: PlayerRole,
    player: PlayerState,
    community: Seq<Card>,
    use_from_hand: nat,
    rules: Seq<SpecialCard>,
) -> bool {
    entry matches PokerGlobalViewDiff::Common(PokerViewDiff::ShowCards { player: p, shown, strength })
        && p == role && shown@ == newly_shown(player.hand@, player.hand@.len() as int)
        && strength.key() == showdown_key(player, community, use_from_hand, rules)
}

/// At the showdown the players who are still in turn their cards face
/// up, beginning with the player who bet last, or with the dealer.
/// Nothing is shown where fewer than two players are left.
pub fn show_cards(
    variant: &PokerVariant,
    players: &mut Vec<PlayerState>,
    viewdiffs: &mut Vec<PokerGlobalViewDiff<PlayerRole>>,
    last_bet: Option<PlayerRole>,
    community_cards: CardTuple,
    rules: &SpecialRules,
)
    requires
        players_wf(old(players)@),
        last_bet matches Some(start) ==> start < old(players)@.len(),
        forall|i: int|
            0 <= i < old(players)@.len() && !(#[trigger] old(players)@[i]).folded ==> can_show(
                old(players)@[i],
                community_cards@,
                variant.use_from_hand as nat,
            ),
    ensures
        players_wf(final(players)@),
        same_but_hands(old(players)@, final(players)@),
        final(viewdiffs)@.len() >= old(viewdiffs)@.len(),
        final(viewdiffs)@.take(old(viewdiffs)@.len() as int) == old(viewdiffs)@,
        count_unfolded(old(players)@) < 2 ==> final(players)@ == old(players)@ && final(viewdiffs)@
            == old(viewdiffs)@,
        count_unfolded(old(players)@) >= 2 ==> {
            let start = match last_bet {
                Some(s) => s,
                None => 0,
            };
            let who = showing(old(players)@, start, old(players)@.len() as int);
            &&& forall|i: int|
                0 <= i < old(players)@.len() ==> (#[trigger] final(players)@[i]).hand@ == if old(
                    players,
                )@[i].folded {
                    old(players)@[i].hand@
                } else {
                    face_up(old(players)@[i].hand@)
                }
            &&& final(viewdiffs)@.len() == old(viewdiffs)@.len() + who.len()
            &&& forall|m: int|
                0 <= m < who.len() ==> is_show_entry(
                    #[trigger] final(viewdiffs)@[old(viewdiffs)@.len() + m],
                    who[m],
                    old(players)@[who[m] as int],
                    community_cards@,
                    variant.use_from_hand as nat,
                    rules@,
                )
        },
{
    let ghost before = players@;
    let ghost log0 = viewdiffs@;
    assert(viewdiffs@.take(log0.len() as int) =~= log0);
    if unfolded_players(players) < 2 {
        return;
    }
    let starting: PlayerRole = match last_bet {
        Some(s) => s,
        None => 0,
    };
    let n = players.len();
    let ghost community = community_cards@;
    let ghost use_n = variant.use_from_hand as nat;
    let mut k: usize = 0;
    while k < n
        invariant
            k <= n,
            n == before.len(),
            starting < n,
            before == old(players)@,
            log0 == old(viewdiffs)@,
            community == community_cards@,
            use_n == variant.use_from_hand,
            players_wf(before),
            players_wf(players@),
            same_but_hands(before, players@),
            forall|i: int|
                0 <= i < n && !(#[trigger] before[i]).folded ==> can_show(before[i], community, use_n),
            forall|i: int|
                0 <= i < n ==> (#[trigger] players@[i]).hand@ == if !before[i].folded && ((starting
                    <= i < starting + k) || i + n < starting + k) {
                    face_up(before[i].hand@)
                } else {
                    before[i].hand@
                },
            viewdiffs@.len() == log0.len() + showing(before, starting, k as int).len(),
            viewdiffs@.take(log0.len() as int) == log0,
            forall|m: int|
                0 <= m < showing(before, starting, k as int).len() ==> is_show_entry(
                    #[trigger] viewdiffs@[log0.len() + m],
                    showing(before, starting, k as int)[m],
                    before[showing(before, starting, k as int)[m] as int],
                    community,
                    use_n,
                    rules@,
                ),
        decreases n - k,
    {
        let role: PlayerRole = if starting >= n - k {
            starting - (n - k)
        } else {
            starting + k
        };
        assert(role == seat_after(starting, n as int, k as int));
        let ghost players_k = players@;
        let ghost log_k = viewdiffs@;
        let ghost who_k = showing(before, starting, k as int);
        assert(players@[role as int].hand@ == before[role as int].hand@);
        if !players[role].folded {
            let mut shown: Vec<(usize, CardViewState)> = Vec::new();
            let len = players[role].hand.len();
            let ghost hand0 = before[role as int].hand@;
            let mut idx: usize = 0;
            while idx < len
                invariant
                    idx <= len,
                    role < n,
                    n == players@.len(),
                    len == hand0.len(),
                    hand0 == before[role as int].hand@,
                    players@.len() == players_k.len(),
                    forall|i: int| 0 <= i < n && i != role ==> #[trigger] players@[i] == players_k[i],
                    players@[role as int].chips == players_k[role as int].chips,
                    players@[role as int].folded == players_k[role as int].folded,
                    players@[role as int].total_bet == players_k[role as int].total_bet,
                    players@[role as int].hand@.len() == len,
                    forall|m: int|
                        0 <= m < idx ==> #[trigger] players@[role as int].hand@[m] == face_up(hand0)[m],
                    forall|m: int|
                        idx <= m < len ==> #[trigger] players@[role as int].hand@[m] == hand0[m],
                    shown@ == newly_shown(hand0, idx as int),
                decreases len - idx,
            {
                if players[role].hand[idx].facing == Facing::FaceDown {
                    players[role].hand[idx].facing = Facing::FaceUp;
                    let cs = players[role].hand[idx];
                    shown.push((idx, CardViewState::Visible(cs)));
                }
                idx = idx + 1;
            }
            proof {
                assert(players@[role as int].hand@ =~= face_up(hand0));
                lemma_same_chips(players_k, players@);
                assert forall|i: int, m: int|
                    0 <= i < players@.len() && 0 <= m < players@[i].hand@.len() implies (
                #[trigger] players@[i].hand@[m]).card.valid() by {
                    if i == role {
                        assert(before[i].hand@[m].card.valid());
                    } else {
                        assert(players_k[i].hand@[m].card.valid());
                    }
                }
            }
            if shown.len() > 0 {
                proof {
                    assert(crate::pots::hand_cards(players@[role as int].hand@)
                        =~= crate::pots::hand_cards(hand0));
                    assert(can_show(before[role as int], community, use_n));
                    assert(can_show(players@[role as int], community, use_n)) by {
                        assert forall|m: int|
                            0 <= m < players@[role as int].hand@.len() implies (
                        #[trigger] players@[role as int].hand@[m]).card.valid() by {
                            assert(before[role as int].hand@[m].card.valid());
                        }
                    }
                }
                let strength = showdown_strength(
                    &players[role],
                    community_cards,
                    variant.use_from_hand,
                    rules,
                );
                viewdiffs.push(
                    PokerGlobalViewDiff::Common(
                        PokerViewDiff::ShowCards { player: role, shown, strength },
                    ),
                );
                proof {
                    assert(viewdiffs@.take(log0.len() as int) =~= log_k.take(log0.len() as int));
                }
            }
        }
        proof {
            let who_next = showing(before, starting, k + 1);
            assert forall|m: int| 0 <= m < who_next.len() implies is_show_entry(
                #[trigger] viewdiffs@[log0.len() + m],
                who_next[m],
                before[who_next[m] as int],
                community,
                use_n,
                rules@,
            ) by {
                if m < who_k.len() {
                    assert(viewdiffs@[log0.len() + m] == log_k[log0.len() + m]);
                    assert(who_next[m] == who_k[m]);
                }
            }
        }
        k = k + 1;
    }
}


/// Where a round of replacing stands after `role` has had their turn: it
/// is over once the dealer has had theirs.
pub open spec fn replace_moves_on(
    round: Option<RoundState>,
    role: PlayerRole,
    n: int,
    rule: MaxReplace,
) -> bool {
    if role == 0 {
        round is None
    } else {
        round matches Some(RoundState::Replace { player, max_replace_fun }) && player == turn_after(
            role,
            n,
        ) && max_replace_fun == rule
    }
}

/// The player whose turn it is in a round of replacing.
pub open spec fn replacing_player(player: PlayerRole, n: int) -> PlayerRole {
    if player >= n {
        0
    } else {
        player
    }
}

/// The cards that are given back, in the order of `idxs`.
pub open spec fn discarded(hand: Seq<CardState>, deck: Seq<Card>, idxs: Seq<usize>) -> Seq<CardState> {
    Seq::new(idxs.len(), |k: int| replaced(hand, deck, idxs, k).0[idxs[k] as int])
}

/// The cards that come for those given back, in the order of `idxs`.
pub open spec fn redrawn(hand: Seq<CardState>, deck: Seq<Card>, idxs: Seq<usize>) -> Seq<CardState> {
    Seq::new(idxs.len(), |k: int| replaced(hand, deck, idxs, k + 1).0[idxs[k] as int])
}

/// Replaces the cards at the positions `resp` of the hand of the player
/// whose turn it is, each by the next card of the deck, and moves on to
/// the next player.
pub fn apply_replace(
    state: &mut HandState,
    resp: &ReplaceResp,
    viewdiffs: &mut Vec<PokerGlobalViewDiff<PlayerRole>>,
) -> (r: Result<(), PokerRoundError>)
    requires
        old(state).wf(),
        old(state).cur_round matches Some(RoundState::Replace { player, .. }) && {
            let role = replacing_player(player, old(state).players@.len() as int);
            &&& !old(state).players@[role as int].folded
            &&& forall|k: int|
                0 <= k < resp@.len() ==> (#[trigger] resp@[k]) < old(state).players@[role as int].hand@.len()
        },
    ensures
        r is Ok <==> resp@.len() <= old(state).deck.raw@.len(),
        r is Err ==> r->Err_0@ == "Ran out of cards in deck"@,
        same_but_hands(old(state).players@, final(state).players@),
        r is Ok ==> {
            let before = old(state).players@;
            let n = before.len() as int;
            let role = replacing_player(old(state).cur_round->Some_0->Replace_player, n);
            let hand = before[role as int].hand@;
            let deck = old(state).deck.raw@;
            let end = replaced(hand, deck, resp@, resp@.len() as int);
            &&& final(state).wf()
            &&& same_but_hands(before, final(state).players@)
            &&& final(state).players@[role as int].hand@ == end.0
            &&& forall|i: int|
                0 <= i < n && i != role ==> (#[trigger] final(state).players@[i]).hand@
                    == before[i].hand@
            &&& final(state).deck.raw@ == end.1
            &&& replace_moves_on(
                final(state).cur_round,
                role,
                n,
                old(state).cur_round->Some_0->Replace_max_replace_fun,
            )
            &&& final(state).rounds == old(state).rounds
            &&& final(state).community_cards == old(state).community_cards
            &&& final(state).pending_bet == old(state).pending_bet
            &&& final(viewdiffs)@.len() == old(viewdiffs)@.len() + 1
            &&& final(viewdiffs)@.take(old(viewdiffs)@.len() as int) == old(viewdiffs)@
            &&& (final(viewdiffs)@.last() matches PokerGlobalViewDiff::Replace {
                player,
                drawn,
                discard,
            } && player == role && discard@ == discarded(hand, deck, resp@) && drawn@ == redrawn(
                hand,
                deck,
                resp@,
            ))
        },
{
    let n = state.players.len();
    let (player, rule) = match &state.cur_round {
        Some(RoundState::Replace { player, max_replace_fun }) => (*player, *max_replace_fun),
        _ => (0, MaxReplace::ThreeOrFourWithAce),
    };
    let role: PlayerRole = if player >= n {
        0
    } else {
        player
    };
    let ghost before = state.players@;
    let ghost hand0 = before[role as int].hand@;
    let ghost deck0 = state.deck.raw@;
    let ghost log0 = viewdiffs@;
    let mut discard: Vec<CardState> = Vec::new();
    let mut drawn: Vec<CardState> = Vec::new();
    let mut k: usize = 0;
    while k < resp.len()
        invariant
            k <= resp@.len(),
            k <= deck0.len(),
            role < n,
            n == before.len(),
            before == old(state).players@,
            hand0 == before[role as int].hand@,
            deck0 == old(state).deck.raw@,
            old(state).wf(),
            forall|m: int| 0 <= m < resp@.len() ==> (#[trigger] resp@[m]) < hand0.len(),
            state.players@.len() == n,
            same_but_hands(before, state.players@),
            forall|i: int|
                0 <= i < n && i != role ==> (#[trigger] state.players@[i]).hand@ == before[i].hand@,
            state.players@[role as int].hand@ == replaced(hand0, deck0, resp@, k as int).0,
            state.deck.raw@ == replaced(hand0, deck0, resp@, k as int).1,
            state.rounds == old(state).rounds,
            state.cur_round == old(state).cur_round,
            state.community_cards == old(state).community_cards,
            state.pending_bet == old(state).pending_bet,
            discard@.len() == k,
            drawn@.len() == k,
            forall|m: int| 0 <= m < k ==> #[trigger] discard@[m] == discarded(hand0, deck0, resp@)[m],
            forall|m: int| 0 <= m < k ==> #[trigger] drawn@[m] == redrawn(hand0, deck0, resp@)[m],
        decreases resp@.len() - k,
    {
        proof {
            lemma_replaced(hand0, deck0, resp@, k as int);
        }
        let idx = resp[k];
        let old_card = state.players[role].hand[idx];
        match state.deck.draw() {
            Err(e) => {
                return Err(e);
            },
            Ok(card) => {
                discard.push(old_card);
                state.players[role].hand[idx].card = card;
                let new_card = state.players[role].hand[idx];
                drawn.push(new_card);
                proof {
                    assert(state.players@[role as int].hand@ =~= replaced(
                        hand0,
                        deck0,
                        resp@,
                        k + 1,
                    ).0);
                }
            },
        }
        k = k + 1;
    }
    proof {
        lemma_replaced(hand0, deck0, resp@, resp@.len() as int);
        assert(discard@ =~= discarded(hand0, deck0, resp@));
        assert(drawn@ =~= redrawn(hand0, deck0, resp@));
        lemma_same_chips(before, state.players@);
        lemma_same_unfolded(before, state.players@);
        lemma_replaced_valid(hand0, deck0, resp@, resp@.len() as int);
        assert forall|i: int, m: int|
            0 <= i < state.players@.len() && 0 <= m < state.players@[i].hand@.len() implies (
        #[trigger] state.players@[i].hand@[m]).card.valid() by {
            if i != role {
                assert(before[i].hand@[m].card.valid());
            }
        }
        assert forall|i: int| 0 <= i < state.deck.raw@.len() implies (#[trigger] state.deck.raw@[i]).in_deck() by {
            assert(state.deck.raw@[i] == deck0[i]);
        }
    }
    viewdiffs.push(PokerGlobalViewDiff::Replace { player: role, drawn, discard });
    proof {
        assert(viewdiffs@.take(log0.len() as int) =~= log0);
    }
    if role == 0 {
        state.cur_round = None;
    } else {
        state.cur_round = Some(
            RoundState::Replace { player: next_player(role, n), max_replace_fun: rule },
        );
    }
    Ok(())
}

proof fn lemma_replaced_valid(hand: Seq<CardState>, deck: Seq<Card>, idxs: Seq<usize>, k: int)
    requires
        0 <= k <= idxs.len(),
        k <= deck.len(),
        forall|i: int| 0 <= i < idxs.len() ==> (#[trigger] idxs[i]) < hand.len(),
        forall|i: int| 0 <= i < hand.len() ==> (#[trigger] hand[i]).card.valid(),
        forall|i: int| 0 <= i < deck.len() ==> (#[trigger] deck[i]).in_deck(),
    ensures
        forall|i: int|
            0 <= i < replaced(hand, deck, idxs, k).0.len() ==> (#[trigger] replaced(
                hand,
                deck,
                idxs,
                k,
            ).0[i]).card.valid(),
    decreases k,
{
    if k > 0 {
        lemma_replaced_valid(hand, deck, idxs, k - 1);
        lemma_replaced(hand, deck, idxs, k - 1);
        let (h, d) = replaced(hand, deck, idxs, k - 1);
        assert(d.last() == deck[deck.len() - k]);
        assert(d.last().in_deck());
    }
}

/// The answer is one that the rules accept as far as the chips go: a bet
/// is not below nothing and not above what the player has left.
pub open spec fn bet_in_reach(players: Seq<PlayerState>, player: PlayerRole, resp: BetResp) -> bool {
    resp matches BetResp::Bet(amount) ==> 0 <= amount <= chips_left(players[player as int])
}

/// Who bet last after `player` has bet `amount`: `player`, where nobody
/// had bet before or the bet goes beyond the bet to match.
pub open spec fn last_bet_after(
    last_bet: Option<(Option<PlayerRole>, Chips)>,
    player: PlayerRole,
    amount: Chips,
    call_amount: Chips,
) -> Option<(Option<PlayerRole>, Chips)> {
    if last_bet is None || last_bet->Some_0.0 is None || amount > call_amount {
        Some((Some(player), amount))
    } else {
        last_bet
    }
}

/// Takes the answer of the player whose turn it is to bet, and passes the
/// turn on.
pub fn apply_bet(
    state: &mut HandState,
    table_rules: &TableRules,
    resp: BetResp,
    viewdiffs: &mut Vec<PokerGlobalViewDiff<PlayerRole>>,
)
    requires
        old(state).wf(),
        table_rules.wf(),
        old(state).cur_round matches Some(RoundState::Bet { player, last_bet, all_bets }) && {
            &&& player < old(state).players@.len()
            &&& can_act(old(state).players@, player, all_bets@)
            &&& bet_in_reach(old(state).players@, player, resp)
        },
        resp is Fold ==> count_unfolded(old(state).players@) >= 2,
    ensures
        final(state).wf(),
        ({
            let before = old(state).players@;
            let n = before.len() as int;
            let player = old(state).cur_round->Some_0->Bet_player;
            let last_bet = old(state).cur_round->Some_0->Bet_last_bet;
            let all_bets = old(state).cur_round->Some_0->Bet_all_bets@;
            let call = call_and_min(last_bet, table_rules.min_bet).0;
            &&& final(state).deck == old(state).deck
            &&& final(state).rounds == old(state).rounds
            &&& final(state).community_cards == old(state).community_cards
            &&& final(state).pending_bet == old(state).pending_bet
            &&& final(viewdiffs)@.len() == old(viewdiffs)@.len() + 1
            &&& final(viewdiffs)@.take(old(viewdiffs)@.len() as int) == old(viewdiffs)@
            &&& final(state).players@.len() == n
            &&& forall|i: int|
                0 <= i < n && i != player ==> #[trigger] final(state).players@[i] == before[i]
            &&& final(state).cur_round matches Some(
                RoundState::Bet { player: next, last_bet: last, all_bets: bets },
            )
            &&& final(state).cur_round->Some_0->Bet_player == turn_after(player, n)
            &&& match resp {
                BetResp::Bet(amount) => {
                    &&& final(state).players@[player as int] == before[player as int]
                    &&& final(state).cur_round->Some_0->Bet_all_bets@ == all_bets.insert(
                        player,
                        amount,
                    )
                    &&& final(state).cur_round->Some_0->Bet_last_bet == last_bet_after(
                        last_bet,
                        player,
                        amount,
                        call,
                    )
                    &&& final(viewdiffs)@.last() == PokerGlobalViewDiff::Common(
                        PokerViewDiff::Bet {
                            bet_kind: bet_diff(amount, bet_of(all_bets, player), call).0,
                            player,
                            chips: bet_diff(amount, bet_of(all_bets, player), call).1,
                        },
                    )
                },
                BetResp::Fold => {
                    &&& final(state).players@[player as int].folded
                    &&& final(state).players@[player as int].chips == before[player as int].chips
                    &&& final(state).players@[player as int].total_bet
                        == before[player as int].total_bet
                    &&& final(state).players@[player as int].hand == before[player as int].hand
                    &&& final(state).cur_round->Some_0->Bet_all_bets@ == all_bets
                    &&& final(state).cur_round->Some_0->Bet_last_bet == last_bet
                    &&& final(viewdiffs)@.last() == PokerGlobalViewDiff::Common(
                        PokerViewDiff::Fold { player },
                    )
                },
            }
        }),
{
    broadcast use vstd::std_specs::hash::group_hash_axioms;

    let ghost before = state.players@;
    let ghost log0 = viewdiffs@;
    let n = state.players.len();
    match state.cur_round.take() {
        Some(RoundState::Bet { player, last_bet, all_bets }) => {
            let mut all_bets = all_bets;
            let ghost bets0 = all_bets@;
            let call_amount: Chips = match last_bet {
                Some((_, amount)) => amount,
                None => 0,
            };
            let unopened = match last_bet {
                Some((by, _)) => by.is_none(),
                None => true,
            };
            let mut this_bet = last_bet;
            match resp {
                BetResp::Bet(num_chips) => {
                    if unopened || num_chips > call_amount {
                        this_bet = Some((Some(player), num_chips));
                    }
                    let so_far: Chips = match all_bets.get(&player) {
                        Some(b) => *b,
                        None => 0,
                    };
                    assert(so_far == bet_of(bets0, player));
                    viewdiffs.push(
                        PokerGlobalViewDiff::Common(
                            PokerViewDiff::from_player_bet_min_bet(
                                player,
                                num_chips,
                                so_far,
                                call_amount,
                            ),
                        ),
                    );
                    all_bets.insert(player, num_chips);
                },
                BetResp::Fold => {
                    state.players[player].folded = true;
                    viewdiffs.push(PokerGlobalViewDiff::Common(PokerViewDiff::Fold { player }));
                    proof {
                        lemma_same_chips(before, state.players@);
                        lemma_one_folds(before, state.players@, player as int);
                        assert forall|i: int, k: int|
                            0 <= i < state.players@.len() && 0 <= k
                                < state.players@[i].hand@.len() implies (
                        #[trigger] state.players@[i].hand@[k]).card.valid() by {
                            assert(before[i].hand@[k].card.valid());
                        }
                    }
                },
            }
            proof {
                assert(viewdiffs@.take(log0.len() as int) =~= log0);
            }
            state.cur_round = Some(
                RoundState::Bet { player: next_player(player, n), last_bet: this_bet, all_bets },
            );
        },
        _ => {},
    }
}

impl HandState {
    /// The hand can take its next step: the community has room for the
    /// cards that are dealt to it, the player whose turn it is to bet is
    /// a player of the hand, and the players who come to a showdown hold
    /// cards that can be shown.
    pub open spec fn can_advance(self, variant: PokerVariant, table_rules: TableRules) -> bool {
        &&& (self.pending_bet is Some ==> table_rules.ante is Blinds)
        &&& match self.cur_round {
            Some(RoundState::DrawToCommunity { quant }) => self.community_cards@.len() + quant
                <= CARD_TUPLE_CAPACITY,
            Some(RoundState::Bet { player, .. }) => player < self.players@.len(),
            None => self.rounds@.len() == 0 && count_unfolded(self.players@) >= 2 ==> forall|i: int|
                0 <= i < self.players@.len() && !(#[trigger] self.players@[i]).folded ==> can_show(
                    self.players@[i],
                    self.community_cards@,
                    variant.use_from_hand as nat,
                ),
            _ => true,
        }
    }

    /// Whether the hand can take its next step.
    pub fn ready(&self, variant: &PokerVariant, table_rules: &TableRules) -> (r: bool)
        requires
            self.wf(),
        ensures
            r == self.can_advance(*variant, *table_rules),
    {
        if self.pending_bet.is_some() {
            match &table_rules.ante {
                AnteRule::Ante(_) => {
                    return false;
                },
                _ => {},
            }
        }
        match &self.cur_round {
            Some(RoundState::DrawToCommunity { quant }) => {
                *quant <= CARD_TUPLE_CAPACITY && self.community_cards.len() + *quant
                    <= CARD_TUPLE_CAPACITY
            },
            Some(RoundState::Bet { player, .. }) => *player < self.players.len(),
            None => {
                if self.rounds.len() != 0 || unfolded_players(&self.players) < 2 {
                    return true;
                }
                let community = self.community_cards.len();
                let mut i: usize = 0;
                while i < self.players.len()
                    invariant
                        i <= self.players@.len(),
                        self.wf(),
                        self.cur_round is None,
                        self.rounds@.len() == 0,
                        count_unfolded(self.players@) >= 2,
                        community == self.community_cards@.len(),
                        community <= CARD_TUPLE_CAPACITY,
                        forall|k: int|
                            0 <= k < i && !(#[trigger] self.players@[k]).folded ==> can_show(
                                self.players@[k],
                                self.community_cards@,
                                variant.use_from_hand as nat,
                            ),
                    decreases self.players@.len() - i,
                {
                    let p = &self.players[i];
                    if !p.folded {
                        let held = p.hand.len();
                        if held > CARD_TUPLE_CAPACITY {
                            assert(!can_show(
                                self.players@[i as int],
                                self.community_cards@,
                                variant.use_from_hand as nat,
                            ));
                            return false;
                        }
                        let used = if held < variant.use_from_hand {
                            held
                        } else {
                            variant.use_from_hand
                        };
                        if used + community == 0 || used + community > CARD_TUPLE_CAPACITY {
                            assert(!can_show(
                                self.players@[i as int],
                                self.community_cards@,
                                variant.use_from_hand as nat,
                            ));
                            return false;
                        }
                    }
                    i = i + 1;
                }
                true
            },
            _ => true,
        }
    }

    /// A hand at its beginning: the deck as it is handed in, the phases
    /// of the variant still to come, and a player for each amount of
    /// `chips`, with no cards and nothing bet.
    pub fn new(variant: PokerVariant, deck: VecDeck, chips: &Vec<Chips>) -> (state: HandState)
        requires
            0 < chips@.len() <= Chips::MAX,
            forall|i: int| 0 <= i < chips@.len() ==> (#[trigger] chips@[i]) >= 0,
            forall|i: int| 0 <= i < deck.raw@.len() ==> (#[trigger] deck.raw@[i]).in_deck(),
            chips_sum(chips@) <= Chips::MAX,
        ensures
            state.wf(),
            state.deck == deck,
            state.cur_round is None,
            state.pending_bet is None,
            state.community_cards@ == Seq::<Card>::empty(),
            state.rounds@.len() == variant.rules@.len(),
            forall|i: int|
                0 <= i < state.rounds@.len() ==> (#[trigger] state.rounds@[i])
                    == variant.rules@[variant.rules@.len() - 1 - i],
            state.players@.len() == chips@.len(),
            forall|i: int|
                0 <= i < chips@.len() ==> {
                    let p = #[trigger] state.players@[i];
                    p.chips == chips@[i] && p.hand@.len() == 0 && !p.folded && p.total_bet == 0
                },
    {
        let mut rules = variant.rules;
        let ghost rules0 = rules@;
        let mut rounds: Vec<Round> = Vec::new();
        while rules.len() > 0
            invariant
                rules@.len() + rounds@.len() == rules0.len(),
                rules@ == rules0.take(rules@.len() as int),
                forall|i: int|
                    0 <= i < rounds@.len() ==> (#[trigger] rounds@[i]) == rules0[rules0.len() - 1 - i],
            decreases rules@.len(),
        {
            let ghost before = rules@;
            let round = rules.pop().unwrap();
            rounds.push(round);
            assert(rules@ =~= rules0.take(rules@.len() as int));
        }
        let mut players: Vec<PlayerState> = Vec::new();
        let mut i: usize = 0;
        assert(chips@.take(0) =~= Seq::<Chips>::empty());
        while i < chips.len()
            invariant
                i <= chips@.len(),
                forall|k: int| 0 <= k < chips@.len() ==> (#[trigger] chips@[k]) >= 0,
                players@.len() == i,
                chips_total(players@) == chips_sum(chips@.take(i as int)),
                forall|k: int|
                    0 <= k < i ==> {
                        let p = #[trigger] players@[k];
                        p.chips == chips@[k] && p.hand@.len() == 0 && !p.folded && p.total_bet == 0
                    },
            decreases chips@.len() - i,
        {
            let ghost before = players@;
            players.push(PlayerState { chips: chips[i], hand: Vec::new(), folded: false, total_bet: 0 });
            proof {
                assert(players@.drop_last() =~= before);
                assert(chips@.take(i + 1).drop_last() =~= chips@.take(i as int));
            }
            i = i + 1;
        }
        assert(chips@.take(chips@.len() as int) =~= chips@);
        HandState {
            deck,
            rounds,
            cur_round: None,
            players,
            community_cards: CardTuple::new(),
            pending_bet: None,
        }
    }
}

/// The chips of all players together.
pub open spec fn chips_sum(chips: Seq<Chips>) -> int
    decreases chips.len(),
{
    if chips.len() == 0 {
        0
    } else {
        chips_sum(chips.drop_last()) + chips.last()
    }
}


proof fn lemma_first_unfolded(players: Seq<PlayerState>, from: int)
    requires
        0 <= from <= players.len() <= usize::MAX,
    ensures
        first_unfolded(players, from) is None ==> forall|i: int|
            from <= i < players.len() ==> (#[trigger] players[i]).folded,
        first_unfolded(players, from) matches Some(role) ==> from <= role < players.len()
            && !players[role as int].folded,
    decreases players.len() - from,
{
    if from < players.len() && players[from].folded {
        lemma_first_unfolded(players, from + 1);
    }
}

/// Where a player has not folded, there is a first such player.
proof fn lemma_some_unfolded(players: Seq<PlayerState>)
    requires
        count_unfolded(players) >= 1,
        players.len() <= usize::MAX,
    ensures
        first_unfolded(players, 0) is Some,
        exists|j: int| 0 <= j < players.len() && !(#[trigger] players[j]).folded,
{
    lemma_first_unfolded(players, 0);
    if first_unfolded(players, 0) is None {
        lemma_all_folded(players);
    } else {
        let role = first_unfolded(players, 0)->Some_0;
        assert(!players[role as int].folded);
    }
}

proof fn lemma_all_folded(players: Seq<PlayerState>)
    requires
        forall|i: int| 0 <= i < players.len() ==> (#[trigger] players[i]).folded,
    ensures
        count_unfolded(players) == 0,
    decreases players.len(),
{
    if players.len() > 0 {
        let head = players.drop_last();
        assert forall|i: int| 0 <= i < head.len() implies (#[trigger] head[i]).folded by {
            assert(head[i] == players[i]);
        }
        lemma_all_folded(head);
        assert(players.last() == players[players.len() - 1]);
    }
}

/// The pot goes to `winner` whole: every part of it.
pub open spec fn all_to(
    players: Seq<PlayerState>,
    winner: Option<PlayerRole>,
    pots: Seq<(Subpot<PlayerRole>, Vec<PlayerRole>)>,
) -> bool {
    &&& pots.len() == subpots_of(players).len()
    &&& forall|j: int|
        0 <= j < pots.len() ==> {
            let part = #[trigger] pots[j];
            &&& part.0.chips == subpots_of(players)[j].0
            &&& part.0.players@ == subpots_of(players)[j].1
            &&& winner matches Some(w) && part.1@ == seq![w]
        }
}

/// The pot goes to those who show the strongest hands: each part of it
/// to the strongest of the players who can win it.
pub open spec fn to_strongest(
    state: HandState,
    variant: PokerVariant,
    rules: Seq<SpecialCard>,
    pots: Seq<(Subpot<PlayerRole>, Vec<PlayerRole>)>,
) -> bool {
    &&& pots.len() == subpots_of(state.players@).len()
    &&& forall|j: int|
        0 <= j < pots.len() ==> {
            let part = #[trigger] pots[j];
            let pot = subpots_of(state.players@)[j];
            &&& part.0.chips == pot.0
            &&& part.0.players@ == pot.1
            &&& part.1@ == top_of(pot.1, showdown_keys(state, variant, rules), pot.1.len() as int)
        }
}

/// Gives the whole pot to the one player who has not folded.
fn last_standing(state: &HandState) -> (w: Winners<PlayerRole>)
    requires
        state.wf(),
    ensures
        winners_fit(w.winners_by_pot@),
        all_to(state.players@, first_unfolded(state.players@, 0), w.winners_by_pot@),
{
    let ghost ps = state.players@;
    let n = state.players.len();
    proof {
        lemma_stakes_fit(ps);
        lemma_first_unfolded(ps, 0);
        crate::pots::lemma_lowest_stake(ps, -1);
    }
    let winner = find_unfolded(&state.players);
    let mut subpots = calc_subpots(state);
    let ghost pots = subpots_of(ps);
    let count = subpots.len();
    assert(count == pots.len()) by {
        assert(subpot_views(subpots@).len() == subpots@.len());
    }
    let mut retval: Vec<(Subpot<PlayerRole>, Vec<PlayerRole>)> = Vec::new();
    match winner {
        None => {
            assert(pots.len() == 0);
            Winners { winners_by_pot: retval }
        },
        Some(role) => {
            let mut j: usize = 0;
            proof {
                crate::pots::lemma_nothing_paid(ps);
            }
            while j < count
                invariant
                    j <= count,
                    count == pots.len(),
                    count == subpots@.len(),
                    pots == subpots_of(ps),
                    subpot_views(subpots@) == pots,
                    ps == state.players@,
                    n == ps.len(),
                    state.wf(),
                    total_staked(ps) <= Chips::MAX,
                    paid_up_to(ps, -1) == 0,
                    retval@.len() == j,
                    forall|k: int|
                        0 <= k < j ==> {
                            let part = #[trigger] retval@[k];
                            &&& part.0.chips == pots[k].0
                            &&& part.0.players@ == pots[k].1
                            &&& part.1@ == seq![role]
                            &&& part.0.chips >= 0
                        },
                    pot_sum(retval@, j as int) == chips_before(pots, j as int),
                decreases count - j,
            {
                proof {
                    lemma_subpots(ps, -1, ps.len(), j as int);
                    assert(subpot_views(subpots@)[j as int] == pots[j as int]);
                }
                let pot = &subpots[j];
                let chips = pot.chips;
                let players = pot.players.clone();
                assert(players@ == pot.players@);
                let mut winners: Vec<PlayerRole> = Vec::new();
                winners.push(role);
                assert(winners@ =~= seq![role]);
                let ghost before = retval@;
                retval.push((Subpot { chips, players }, winners));
                proof {
                    assert forall|k: int| 0 <= k < j + 1 implies {
                        let part = #[trigger] retval@[k];
                        &&& part.0.chips == pots[k].0
                        &&& part.0.players@ == pots[k].1
                        &&& part.1@ == seq![role]
                        &&& part.0.chips >= 0
                    } by {
                        if k < j {
                            assert(retval@[k] == before[k]);
                        }
                    }
                    crate::pots::lemma_same_pots(before, retval@, j as int);
                }
                j = j + 1;
            }
            proof {
                if count > 0 {
                    lemma_subpots(ps, -1, ps.len(), count - 1);
                }
            }
            Winners { winners_by_pot: retval }
        },
    }
}

/// Takes the next step of the hand, as far as it can be taken without an
/// answer from a player. What happened is added to `viewdiffs`.
///
/// Between phases, the hand is settled once no more than one player is
/// left, or once all phases have been played; else the next phase begins.
/// In a phase, cards are dealt and antes collected at once; in a round of
/// betting or of replacing cards the player whose turn it is is asked,
/// unless their turn is passed over.
pub fn advance(
    state: &mut HandState,
    variant: &PokerVariant,
    table_rules: &TableRules,
    rules: &SpecialRules,
    viewdiffs: &mut Vec<PokerGlobalViewDiff<PlayerRole>>,
) -> (r: Result<HandAction, PokerRoundError>)
    requires
        old(state).wf(),
        table_rules.wf(),
        old(state).can_advance(*variant, *table_rules),
    ensures
        r is Err ==> r->Err_0@ == "Ran out of cards in deck"@ && same_but_hands(
            old(state).players@,
            final(state).players@,
        ),
        final(state).players@.len() == old(state).players@.len(),
        r is Ok ==> {
            &&& final(state).wf()
            &&& final(viewdiffs)@.len() >= old(viewdiffs)@.len()
            &&& final(viewdiffs)@.take(old(viewdiffs)@.len() as int) == old(viewdiffs)@
        },
        ({
            let before = old(state).players@;
            let after = final(state).players@;
            let n = before.len() as int;
            let added = final(viewdiffs)@.skip(old(viewdiffs)@.len() as int);
            match old(state).cur_round {
                None => {
                    if count_unfolded(before) <= 1 {
                        &&& r matches Ok(HandAction::Finished { deltas })
                        &&& after == before
                        &&& final(state).cur_round is None
                        &&& added.len() == 1
                        &&& added[0] matches PokerGlobalViewDiff::Common(PokerViewDiff::Winners(w))
                        &&& all_to(
                            before,
                            first_unfolded(before, 0),
                            added[0]->Common_0->Winners_0.winners_by_pot@,
                        )
                        &&& settles(
                            before,
                            added[0]->Common_0->Winners_0.winners_by_pot@,
                            r->Ok_0->Finished_deltas@,
                        )
                        &&& sum_deltas(r->Ok_0->Finished_deltas@, n) == 0
                    } else if old(state).rounds@.len() > 0 {
                        let round = old(state).rounds@.last();
                        &&& r matches Ok(HandAction::Continue)
                        &&& after == before
                        &&& final(state).deck == old(state).deck
                        &&& final(state).community_cards == old(state).community_cards
                        &&& final(state).rounds@ == old(state).rounds@.drop_last()
                        &&& if round is Bet && old(state).pending_bet is Some {
                            let pending = old(state).pending_bet->Some_0;
                            &&& final(state).pending_bet is None
                            &&& final(state).cur_round matches Some(
                                RoundState::Bet { player, last_bet, all_bets },
                            )
                            &&& final(state).cur_round->Some_0->Bet_player == pending.0.player
                            &&& final(state).cur_round->Some_0->Bet_last_bet == pending.0.last_bet
                            &&& final(state).cur_round->Some_0->Bet_all_bets == pending.0.all_bets
                            &&& added == pending.1@
                        } else {
                            &&& final(state).pending_bet == old(state).pending_bet
                            &&& added.len() == 0
                            &&& final(state).cur_round is Some
                            &&& match round {
                                Round::Ante => final(state).cur_round->Some_0 is Ante,
                                Round::Bet { starting_player } => final(state).cur_round->Some_0 matches RoundState::Bet {
                                    player,
                                    last_bet,
                                    all_bets,
                                } && player == starting_player && last_bet is None && all_bets@
                                    == Map::<PlayerRole, Chips>::empty(),
                                Round::DrawToHand { facing } => final(state).cur_round->Some_0 matches RoundState::DrawToHand {
                                    facing: f,
                                } && f == facing,
                                Round::DrawToCommunity { quant } => final(state).cur_round->Some_0 matches RoundState::DrawToCommunity {
                                    quant: q,
                                } && q == quant,
                                Round::Replace { max_replace_fun, .. } => final(state).cur_round->Some_0 matches RoundState::Replace {
                                    player,
                                    max_replace_fun: m,
                                } && player == 1 && m == max_replace_fun,
                            }
                        }
                    } else {
                        let who = showing(before, 0, n);
                        &&& r matches Ok(HandAction::Finished { deltas })
                        &&& same_but_hands(before, after)
                        &&& forall|i: int|
                            0 <= i < n ==> (#[trigger] after[i]).hand@ == if before[i].folded {
                                before[i].hand@
                            } else {
                                face_up(before[i].hand@)
                            }
                        &&& final(state).cur_round is None
                        &&& added.len() == who.len() + 1
                        &&& forall|m: int|
                            0 <= m < who.len() ==> is_show_entry(
                                #[trigger] added[m],
                                who[m],
                                before[who[m] as int],
                                old(state).community_cards@,
                                variant.use_from_hand as nat,
                                rules@,
                            )
                        &&& added.last() matches PokerGlobalViewDiff::Common(
                            PokerViewDiff::Winners(w),
                        )
                        &&& to_strongest(
                            *final(state),
                            *variant,
                            rules@,
                            added.last()->Common_0->Winners_0.winners_by_pot@,
                        )
                        &&& settles(
                            after,
                            added.last()->Common_0->Winners_0.winners_by_pot@,
                            r->Ok_0->Finished_deltas@,
                        )
                        &&& sum_deltas(r->Ok_0->Finished_deltas@, n) == 0
                    }
                },
                Some(RoundState::Ante) => {
                    &&& r matches Ok(HandAction::Continue)
                    &&& final(state).cur_round is None
                    &&& final(state).deck == old(state).deck
                    &&& final(state).rounds == old(state).rounds
                    &&& final(state).community_cards == old(state).community_cards
                    &&& match table_rules.ante {
                        AnteRule::Ante(ante) => {
                            &&& final(state).pending_bet == old(state).pending_bet
                            &&& added.len() == n
                            &&& forall|i: int|
                                0 <= i < n ==> #[trigger] after[i] == with_total_bet(
                                    before[i],
                                    (before[i].total_bet + collected(before[i], ante)) as Chips,
                                )
                            &&& forall|i: int|
                                0 <= i < n ==> is_blind_entry(
                                    #[trigger] added[i],
                                    i as usize,
                                    collected(before[i], ante),
                                    "ante"@,
                                )
                        },
                        AnteRule::Blinds(blinds) => {
                            let start = first_blind_seat(before);
                            &&& after == before
                            &&& added.len() == 0
                            &&& if blinds@.len() == 0 {
                                final(state).pending_bet == old(state).pending_bet
                            } else {
                                &&& final(state).pending_bet matches Some((bet, entries))
                                &&& final(state).pending_bet->Some_0.0.player == blind_seat(
                                    start,
                                    n,
                                    blinds@.len(),
                                )
                                &&& final(state).pending_bet->Some_0.0.last_bet == Some(
                                    (None::<PlayerRole>, blinds@.last().amount),
                                )
                                &&& final(state).pending_bet->Some_0.0.all_bets@ == blind_bets(
                                    before,
                                    blinds@,
                                    start,
                                    blinds@.len(),
                                )
                                &&& final(state).pending_bet->Some_0.1@.len() == blinds@.len()
                                &&& forall|k: int|
                                    0 <= k < blinds@.len() ==> {
                                        let seat = blind_seat(start, n, k as nat);
                                        is_blind_entry(
                                            #[trigger] final(state).pending_bet->Some_0.1@[k],
                                            seat,
                                            collected(before[seat as int], blinds@[k].amount),
                                            "blind"@,
                                        )
                                    }
                            }
                        },
                    }
                },
                Some(RoundState::DrawToHand { facing }) => {
                    let end = dealt(
                        before,
                        hands_of(before),
                        old(state).deck.raw@,
                        facing@,
                        facing@.len() as int,
                    );
                    &&& r is Ok <==> end is Some
                    &&& r is Ok ==> {
                        &&& r matches Ok(HandAction::Continue)
                        &&& final(state).cur_round is None
                        &&& same_but_hands(before, after)
                        &&& hands_of(after) == end->Some_0.0
                        &&& final(state).deck.raw@ == end->Some_0.1
                        &&& final(state).rounds == old(state).rounds
                        &&& final(state).community_cards == old(state).community_cards
                        &&& final(state).pending_bet == old(state).pending_bet
                        &&& logs_draws(
                            added,
                            dealt_log(
                                before,
                                hands_of(before),
                                old(state).deck.raw@,
                                facing@,
                                facing@.len() as int,
                            ),
                        )
                    }
                },
                Some(RoundState::DrawToCommunity { quant }) => {
                    let drawn = top_cards(old(state).deck.raw@, quant as int);
                    &&& r is Ok <==> quant <= old(state).deck.raw@.len()
                    &&& r is Ok ==> {
                        &&& r matches Ok(HandAction::Continue)
                        &&& final(state).cur_round is None
                        &&& final(state).deck.raw@ == old(state).deck.raw@.take(
                            old(state).deck.raw@.len() - quant,
                        )
                        &&& final(state).community_cards@ == old(state).community_cards@ + drawn
                        &&& final(state).players == old(state).players
                        &&& final(state).rounds == old(state).rounds
                        &&& final(state).pending_bet == old(state).pending_bet
                        &&& added.len() == 1
                        &&& is_community_entry(added[0], drawn)
                    }
                },
                Some(RoundState::Bet { player, last_bet, all_bets }) => {
                    &&& r is Ok
                    &&& final(state).deck == old(state).deck
                    &&& final(state).rounds == old(state).rounds
                    &&& final(state).community_cards == old(state).community_cards
                    &&& final(state).pending_bet == old(state).pending_bet
                    &&& added.len() == 0
                    &&& if round_over(before, player, last_bet, all_bets@) {
                        &&& r matches Ok(HandAction::Continue)
                        &&& final(state).cur_round is None
                        &&& after.len() == n
                        &&& forall|i: int|
                            0 <= i < n ==> #[trigger] after[i] == with_total_bet(
                                before[i],
                                (before[i].total_bet + bet_of(all_bets@, i as usize)) as Chips,
                            )
                    } else if can_act(before, player, all_bets@) {
                        &&& count_unfolded(before) >= 2
                        &&& r matches Ok(HandAction::Bet { player: p, call_amount, min_bet })
                        &&& r->Ok_0->Bet_player == player
                        &&& r->Ok_0->Bet_call_amount == call_and_min(last_bet, table_rules.min_bet).0
                        &&& r->Ok_0->Bet_min_bet == call_and_min(last_bet, table_rules.min_bet).1
                        &&& final(state).cur_round == old(state).cur_round
                        &&& after == before
                    } else {
                        &&& r matches Ok(HandAction::Continue)
                        &&& after == before
                        &&& final(state).cur_round matches Some(
                            RoundState::Bet { player: p, last_bet: l, all_bets: b },
                        )
                        &&& final(state).cur_round->Some_0->Bet_player == turn_after(player, n)
                        &&& final(state).cur_round->Some_0->Bet_last_bet == last_bet
                        &&& final(state).cur_round->Some_0->Bet_all_bets == all_bets
                    }
                },
                Some(RoundState::Replace { player, max_replace_fun }) => {
                    let role = replacing_player(player, n);
                    &&& r is Ok
                    &&& final(state).deck == old(state).deck
                    &&& final(state).rounds == old(state).rounds
                    &&& final(state).community_cards == old(state).community_cards
                    &&& final(state).pending_bet == old(state).pending_bet
                    &&& after == before
                    &&& added.len() == 0
                    &&& if before[role as int].folded {
                        &&& r matches Ok(HandAction::Continue)
                        &&& replace_moves_on(final(state).cur_round, role, n, max_replace_fun)
                    } else {
                        &&& r matches Ok(HandAction::Replace { player: p, max_can_replace })
                        &&& r->Ok_0->Replace_player == role
                        &&& r->Ok_0->Replace_max_can_replace == max_replace_fun.limit(
                            before[role as int],
                        )
                        &&& final(state).cur_round == old(state).cur_round
                    }
                },
            }
        }),
{
    let ghost before = state.players@;
    let ghost log0 = viewdiffs@;
    let n = state.players.len();
    proof {
        assert(viewdiffs@.take(log0.len() as int) =~= log0);
        assert(viewdiffs@.skip(log0.len() as int) =~= Seq::<PokerGlobalViewDiff<PlayerRole>>::empty());
    }
    match state.cur_round.take() {
        None => {
            if unfolded_players(&state.players) <= 1 {
                let winners = last_standing(state);
                let deltas = net_deltas(&winners, &state.players);
                proof {
                    lemma_some_unfolded(before);
                    lemma_first_unfolded(before, 0);
                    lemma_deltas_balance(before, winners.winners_by_pot@, deltas@);
                }
                viewdiffs.push(PokerGlobalViewDiff::Common(PokerViewDiff::Winners(winners)));
                proof {
                    assert(viewdiffs@.take(log0.len() as int) =~= log0);
                    assert(viewdiffs@.skip(log0.len() as int)[0] == viewdiffs@[log0.len() as int]);
                }
                Ok(HandAction::Finished { deltas })
            } else if state.rounds.len() > 0 {
                let next_round = state.rounds.pop().unwrap();
                let is_bet = match &next_round {
                    Round::Bet { .. } => true,
                    _ => false,
                };
                if is_bet && state.pending_bet.is_some() {
                    let (bet, mut pending_viewdiffs) = state.pending_bet.take().unwrap();
                    let BetState { player, last_bet, all_bets } = bet;
                    state.cur_round = Some(RoundState::Bet { player, last_bet, all_bets });
                    viewdiffs.append(&mut pending_viewdiffs);
                    proof {
                        assert(viewdiffs@.take(log0.len() as int) =~= log0);
                        assert(viewdiffs@.skip(log0.len() as int) =~= old(
                            state,
                        ).pending_bet->Some_0.1@);
                    }
                } else {
                    state.cur_round = Some(RoundState::new(next_round));
                }
                Ok(HandAction::Continue)
            } else {
                show_cards(
                    variant,
                    &mut state.players,
                    viewdiffs,
                    None,
                    state.community_cards,
                    rules,
                );
                let ghost shown_log = viewdiffs@;
                proof {
                    lemma_stakes_fit(state.players@);
                    lemma_same_stakes(before, state.players@);
                    lemma_same_unfolded(before, state.players@);
                    assert forall|i: int|
                        0 <= i < state.players@.len() && !(#[trigger] state.players@[i]).folded implies can_show(
                        state.players@[i],
                        state.community_cards@,
                        variant.use_from_hand as nat,
                    ) by {
                        assert(can_show(
                            before[i],
                            state.community_cards@,
                            variant.use_from_hand as nat,
                        ));
                        assert(state.players@[i].hand@.len() == before[i].hand@.len());
                    }
                }
                let winners = calc_winners(variant, state, rules);
                let deltas = net_deltas(&winners, &state.players);
                proof {
                    let ps = state.players@;
                    let pots = winners.winners_by_pot@;
                    lemma_some_unfolded(before);
                    lemma_first_unfolded(before, 0);
                    let live = first_unfolded(before, 0)->Some_0;
                    assert(!ps[live as int].folded);
                    assert forall|j: int| 0 <= j < pots.len() implies {
                        let part = #[trigger] pots[j];
                        &&& part.0.chips == subpots_of(ps)[j].0
                        &&& part.1@.len() > 0
                        &&& forall|a: int| 0 <= a < part.1@.len() ==> part.1@[a] < ps.len()
                    } by {
                        let pot = subpots_of(ps)[j];
                        lemma_subpots(ps, -1, ps.len(), j);
                        crate::pots::lemma_top_of(
                            pot.1,
                            showdown_keys(*state, *variant, rules@),
                            pot.1.len() as int,
                        );
                        assert forall|a: int| 0 <= a < pots[j].1@.len() implies pots[j].1@[a]
                            < ps.len() by {
                            let role = pots[j].1@[a];
                            assert(pot.1.contains(role));
                            let i = choose|i: int| 0 <= i < pot.1.len() && pot.1[i] == role;
                            assert(pot.1[i] < ps.len());
                        }
                    }
                    lemma_deltas_balance(ps, pots, deltas@);
                }
                viewdiffs.push(PokerGlobalViewDiff::Common(PokerViewDiff::Winners(winners)));
                proof {
                    let added = viewdiffs@.skip(log0.len() as int);
                    let who = showing(before, 0, n as int);
                    assert(viewdiffs@.take(log0.len() as int) =~= shown_log.take(log0.len() as int));
                    assert(added.len() == who.len() + 1);
                    assert forall|m: int| 0 <= m < who.len() implies is_show_entry(
                        #[trigger] added[m],
                        who[m],
                        before[who[m] as int],
                        old(state).community_cards@,
                        variant.use_from_hand as nat,
                        rules@,
                    ) by {
                        assert(added[m] == shown_log[log0.len() + m]);
                    }
                    assert(added.last() == viewdiffs@.last());
                }
                Ok(HandAction::Finished { deltas })
            }
        },
        Some(RoundState::Ante) => {
            let (bet, mut vds) = collect_ante_from_players(&table_rules.ante, &mut state.players);
            let ghost entries = vds@;
            proof {
                assert forall|i: int| 0 <= i < before.len() implies (#[trigger] state.players@[i]).folded
                    == before[i].folded by {
                    match table_rules.ante {
                        AnteRule::Ante(ante) => {
                            assert(state.players@[i] == with_total_bet(
                                before[i],
                                (before[i].total_bet + collected(before[i], ante)) as Chips,
                            ));
                        },
                        AnteRule::Blinds(_) => {},
                    }
                }
                lemma_same_unfolded(before, state.players@);
            }
            match bet {
                Some(bet) => {
                    state.pending_bet = Some((bet, vds));
                },
                None => {
                    viewdiffs.append(&mut vds);
                    proof {
                        assert(viewdiffs@.take(log0.len() as int) =~= log0);
                        assert(viewdiffs@.skip(log0.len() as int) =~= entries);
                    }
                },
            }
            Ok(HandAction::Continue)
        },
        Some(RoundState::DrawToHand { facing }) => {
            match deal_to_hands(state, &facing, viewdiffs) {
                Err(e) => Err(e),
                Ok(()) => Ok(HandAction::Continue),
            }
        },
        Some(RoundState::DrawToCommunity { quant }) => {
            match deal_to_community(state, quant, viewdiffs) {
                Err(e) => Err(e),
                Ok(()) => {
                    proof {
                        let added = viewdiffs@.skip(log0.len() as int);
                        assert(added[0] == viewdiffs@.last());
                    }
                    Ok(HandAction::Continue)
                },
            }
        },
        Some(RoundState::Bet { player, last_bet, all_bets }) => {
            let back_at_last = match last_bet {
                Some((Some(p), _)) => p == player,
                _ => false,
            };
            if back_at_last || players_in_play(&state.players, &all_bets) <= 1 {
                collect_bets(&mut state.players, &all_bets);
                proof {
                    lemma_same_chips(before, state.players@);
                    lemma_same_unfolded(before, state.players@);
                    assert forall|i: int, k: int|
                        0 <= i < state.players@.len() && 0 <= k
                            < state.players@[i].hand@.len() implies (
                    #[trigger] state.players@[i].hand@[k]).card.valid() by {
                        assert(before[i].hand@[k].card.valid());
                    }
                    assert forall|i: int| 0 <= i < state.players@.len() implies 0 <= (
                    #[trigger] state.players@[i]).total_bet <= state.players@[i].chips by {
                        assert(0 <= before[i].total_bet <= before[i].chips);
                        if all_bets@.contains_key(i as usize) {
                            assert(0 <= all_bets@[i as usize] <= chips_left(before[i]));
                        }
                    }
                }
                return Ok(HandAction::Continue);
            }
            let (call_amount, min_bet): (Chips, Chips) = match last_bet {
                Some((_, amount)) => {
                    if amount == 0 {
                        (0, table_rules.min_bet)
                    } else if amount > Chips::MAX / 2 {
                        (amount, Chips::MAX)
                    } else {
                        (amount, amount * 2)
                    }
                },
                None => (0, table_rules.min_bet),
            };
            broadcast use vstd::std_specs::hash::group_hash_axioms;

            let so_far: Chips = match all_bets.get(&player) {
                Some(b) => *b,
                None => 0,
            };
            let p = &state.players[player];
            let acts = !p.folded && (p.chips as i64) > (p.total_bet as i64) + (so_far as i64);
            if acts {
                proof {
                    lemma_in_play_unfolded(before, all_bets@);
                }
                state.cur_round = Some(RoundState::Bet { player, last_bet, all_bets });
                Ok(HandAction::Bet { player, call_amount, min_bet })
            } else {
                state.cur_round = Some(
                    RoundState::Bet { player: next_player(player, n), last_bet, all_bets },
                );
                Ok(HandAction::Continue)
            }
        },
        Some(RoundState::Replace { player, max_replace_fun }) => {
            let role: PlayerRole = if player >= n {
                0
            } else {
                player
            };
            if state.players[role].folded {
                if role != 0 {
                    state.cur_round = Some(
                        RoundState::Replace { player: next_player(role, n), max_replace_fun },
                    );
                }
                Ok(HandAction::Continue)
            } else {
                let max_can_replace = max_replace_fun.allowed(&state.players[role]);
                state.cur_round = Some(RoundState::Replace { player, max_replace_fun });
                Ok(HandAction::Replace { player: role, max_can_replace })
            }
        },
    }
}

proof fn lemma_same_stakes(before: Seq<PlayerState>, after: Seq<PlayerState>)
    requires
        same_but_hands(before, after),
    ensures
        total_staked(after) == total_staked(before),
    decreases before.len(),
{
    if before.len() > 0 {
        let b = before.drop_last();
        let a = after.drop_last();
        assert forall|i: int| 0 <= i < b.len() implies {
            &&& (#[trigger] a[i]).chips == b[i].chips
            &&& a[i].folded == b[i].folded
            &&& a[i].total_bet == b[i].total_bet
        } by {
            assert(a[i] == after[i]);
            assert(b[i] == before[i]);
        }
        lemma_same_stakes(b, a);
        assert(after.last() == after[after.len() - 1]);
        assert(before.last() == before[before.len() - 1]);
    }
}

/// What the first `k` of `deltas` add up to.
pub open spec fn sum_deltas(deltas: Seq<Chips>, k: int) -> int
    decreases k,
{
    if k <= 0 {
        0
    } else {
        sum_deltas(deltas, k - 1) + deltas[k - 1]
    }
}

/// `pots` are the parts of the pot of `players`, and each is won by
/// players.
pub open spec fn pots_of(
    players: Seq<PlayerState>,
    pots: Seq<(Subpot<PlayerRole>, Vec<PlayerRole>)>,
) -> bool {
    &&& pots.len() == subpots_of(players).len()
    &&& forall|j: int|
        0 <= j < pots.len() ==> {
            let part = #[trigger] pots[j];
            &&& part.0.chips == subpots_of(players)[j].0
            &&& part.1@.len() > 0
            &&& forall|a: int| 0 <= a < part.1@.len() ==> part.1@[a] < players.len()
        }
}

proof fn lemma_deltas_upto(
    players: Seq<PlayerState>,
    pots: Seq<(Subpot<PlayerRole>, Vec<PlayerRole>)>,
    deltas: Seq<Chips>,
    k: int,
)
    requires
        settles(players, pots, deltas),
        0 <= k <= players.len() <= usize::MAX,
    ensures
        sum_deltas(deltas, k) == crate::pots::won_by(pots, k, pots.len() as int) - total_staked(
            players.take(k),
        ),
    decreases k,
{
    if k > 0 {
        lemma_deltas_upto(players, pots, deltas, k - 1);
        assert(players.take(k).drop_last() =~= players.take(k - 1));
        assert(players.take(k).last() == players[k - 1]);
    } else {
        assert(players.take(0) =~= Seq::<PlayerState>::empty());
    }
}

proof fn lemma_pot_chips(
    pots: Seq<(Subpot<PlayerRole>, Vec<PlayerRole>)>,
    parts: Seq<(int, Seq<PlayerRole>)>,
    k: int,
)
    requires
        0 <= k <= pots.len() == parts.len(),
        forall|j: int| 0 <= j < pots.len() ==> (#[trigger] pots[j]).0.chips == parts[j].0,
    ensures
        pot_sum(pots, k) == chips_before(parts, k),
    decreases k,
{
    if k > 0 {
        lemma_pot_chips(pots, parts, k - 1);
    }
}

/// Chips only move between players: as long as a player is still in the
/// hand, every chip that was bet is won once, so that what the hand
/// brings and what it costs add up to nothing.
pub proof fn lemma_deltas_balance(
    players: Seq<PlayerState>,
    pots: Seq<(Subpot<PlayerRole>, Vec<PlayerRole>)>,
    deltas: Seq<Chips>,
)
    requires
        players.len() <= usize::MAX,
        forall|i: int| 0 <= i < players.len() ==> (#[trigger] players[i]).total_bet >= 0,
        exists|j: int| 0 <= j < players.len() && !(#[trigger] players[j]).folded,
        pots_of(players, pots),
        settles(players, pots, deltas),
    ensures
        sum_deltas(deltas, deltas.len() as int) == 0,
{
    let n = players.len() as int;
    let m = pots.len() as int;
    let parts = subpots_of(players);
    lemma_deltas_upto(players, pots, deltas, n);
    assert(players.take(n) =~= players);
    assert forall|j: int| 0 <= j < pots.len() implies (#[trigger] pots[j]).1@.len() > 0
        && pots[j].0.chips >= 0 by {
        lemma_subpots(players, -1, players.len(), j);
    }
    assert forall|j: int, a: int| 0 <= j < pots.len() && 0 <= a < pots[j].1@.len() implies (
    #[trigger] pots[j].1@[a]) < n by {
        assert(pots[j].1@.len() > 0);
    }
    crate::pots::lemma_all_is_won(pots, n, m);
    lemma_pot_chips(pots, parts, m);
    crate::pots::lemma_chips_sum(parts);
    crate::pots::lemma_subpots_conserve(players);
}

/// A round of betting between two players who both have more chips than
/// the bet: one raises and the other calls. Each is asked once, the first
/// for a bet and the second for the amount that the first has bet, and
/// after these two answers the round is over, with the bet of each to be
/// collected.
pub proof fn lemma_raise_and_call(
    players: Seq<PlayerState>,
    first: PlayerRole,
    amount: Chips,
    table_min: Chips,
)
    requires
        players.len() == 2,
        first < 2,
        !players[0].folded,
        !players[1].folded,
        0 < amount < chips_left(players[0]),
        amount < chips_left(players[1]),
    ensures
        ({
            let second = turn_after(first, 2);
            let none = Map::<PlayerRole, Chips>::empty();
            let raised = last_bet_after(None, first, amount, call_and_min(None, table_min).0);
            let one = none.insert(first, amount);
            let called = last_bet_after(raised, second, amount, call_and_min(raised, table_min).0);
            let both = one.insert(second, amount);
            &&& second != first
            &&& !round_over(players, first, None, none)
            &&& can_act(players, first, none)
            &&& !round_over(players, second, raised, one)
            &&& can_act(players, second, one)
            &&& call_and_min(raised, table_min).0 == amount
            &&& turn_after(second, 2) == first
            &&& round_over(players, first, called, both)
            &&& bet_of(both, 0) == amount
            &&& bet_of(both, 1) == amount
        }),
{
    let none = Map::<PlayerRole, Chips>::empty();
    let one = none.insert(first, amount);
    let head = players.drop_last();
    assert(head.len() == 1);
    assert(head.drop_last().len() == 0);
    assert(head.last() == players[0]);
    assert(players.last() == players[1]);
    assert(count_in_play(head.drop_last(), none) == 0);
    assert(count_in_play(head.drop_last(), one) == 0);
    assert(count_in_play(head, none) == 1);
    assert(count_in_play(head, one) == 1);
    assert(count_in_play(players, none) == 2);
    assert(count_in_play(players, one) == 2);
}

} // verus!
