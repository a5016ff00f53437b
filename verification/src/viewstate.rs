//! What one player is shown of a hand, and the entries of the log as each
//! player may see them.

use crate::bitcard::CardTuple;
use crate::card::Card;
use crate::game::{Chips, Facing, PlayerId, PlayerRole, PokerVariant, PokerVariantDesc};
use crate::gamestate::{CardState, HandState, PlayerState, RoundState};
use crate::pots::{all_named, renames, Winners};
use crate::special_card::{SpecialCard, SpecialRules};
use crate::strength::HandStrength;
use crate::table::TableRules;
use std::collections::HashMap;
use vstd::prelude::*;
use vstd::string::StringExecFns;

verus! {

/// A card as a viewer sees it.
#[derive(Clone, Copy, Debug, PartialEq, Eq, Structural)]
pub enum CardViewState {
    Visible(CardState),
    Invisible,
}

/// A marker that shows what a seat has to do.
#[derive(Clone, Copy, Hash, Debug, PartialEq, Eq, Structural)]
pub enum PokerButton {
    Dealer,
    BigBlind,
    SmallBlind,
}

/// What a viewer sees of a card: the card itself if it is their own or
/// lies face up, and nothing of it else.
pub open spec fn redacted(state: CardState, same_player: bool) -> CardViewState {
    if same_player || state.facing == Facing::FaceUp {
        CardViewState::Visible(state)
    } else {
        CardViewState::Invisible
    }
}

/// What a viewer sees of some cards of one player.
pub open spec fn redacted_cards(cards: Seq<CardState>, same_player: bool) -> Seq<CardViewState> {
    Seq::new(cards.len(), |i: int| redacted(cards[i], same_player))
}

impl CardViewState {
    /// What a viewer sees of a card.
    pub fn from_card_state_and_same_player(state: &CardState, same_player: bool) -> (r: CardViewState)
        ensures
            r == redacted(*state, same_player),
    {
        if same_player || state.facing == Facing::FaceUp {
            CardViewState::Visible(*state)
        } else {
            CardViewState::Invisible
        }
    }
}

/// What a viewer sees of some cards of one player.
pub fn redact_cards(cards: &Vec<CardState>, same_player: bool) -> (r: Vec<CardViewState>)
    ensures
        r@ == redacted_cards(cards@, same_player),
{
    let mut r: Vec<CardViewState> = Vec::new();
    let mut i: usize = 0;
    while i < cards.len()
        invariant
            i <= cards@.len(),
            r@.len() == i,
            forall|k: int| 0 <= k < i ==> r@[k] == redacted(cards@[k], same_player),
        decreases cards@.len() - i,
    {
        r.push(CardViewState::from_card_state_and_same_player(&cards[i], same_player));
        i = i + 1;
    }
    assert(r@ =~= redacted_cards(cards@, same_player));
    r
}

/// What a viewer sees of a player.
#[derive(Clone, Debug, PartialEq, Eq)]
pub struct PlayerViewState {
    pub chips: Chips,
    pub total_bet: Chips,
    pub hand: Vec<CardViewState>,
    pub folded: bool,
}

/// What a viewer knows of the variant that is played.
#[derive(Clone, Debug, PartialEq, Eq)]
pub struct PokerVariantViewState {
    pub use_from_hand: usize,
}

/// What one player sees of a hand.
#[derive(Eq, PartialEq, Clone, Debug)]
pub struct PokerViewState {
    pub role: PlayerRole,
    pub players: Vec<PlayerViewState>,
    pub community_cards: Vec<CardViewState>,
    pub bet_this_round: HashMap<PlayerRole, Chips>,
    pub current_turn: Option<PlayerRole>,
    pub rules: SpecialRules,
    pub variant: PokerVariantViewState,
}

/// How a bet is called in the log.
#[derive(Eq, PartialEq, Clone, Debug)]
pub enum BetDiffKind {
    Blind(String),
    Check,
    Call,
    Raise { diff_from_last_raise: Chips, total: Chips },
}

/// Something that happened in a hand, as one viewer sees it.
#[derive(Eq, PartialEq, Clone, Debug)]
pub enum PokerViewDiff<P> {
    Draw { player: P, drawn: Vec<CardViewState> },
    CommunityDraw { drawn: Vec<CardViewState> },
    Fold { player: P },
    TurnStart { player: P },
    Bet { bet_kind: BetDiffKind, player: P, chips: Chips },
    Replace { player: P, discard: Vec<CardViewState>, drawn: Vec<CardViewState> },
    ShowCards { player: P, shown: Vec<(usize, CardViewState)>, strength: HandStrength },
    Winners(Winners<P>),
    Unknown,
}

/// Something that happened at a table between hands.
#[derive(Clone, Debug, Eq, PartialEq)]
pub enum TableEvent {
    PlayerJoined { player_id: PlayerId },
    VariantChange { new_variant_desc: PokerVariantDesc },
    AnteChange { new_table_rules: TableRules },
}

/// Something that happened at a table, in a hand or between hands.
#[derive(Clone, Debug, Eq, PartialEq)]
pub enum TableViewDiff<G> {
    GameDiff(G),
    TableDiff(TableEvent),
}

/// A stretch of the log of one round.
#[derive(Clone, Debug, Eq, PartialEq)]
pub struct PokerLogUpdate {
    pub round: usize,
    pub log: Vec<TableViewDiff<PokerViewDiff<PlayerId>>>,
}

/// What a player is sent when the hand has changed.
#[derive(Clone, Debug, Eq, PartialEq)]
pub struct PokerViewUpdate {
    pub viewstate: PokerViewState,
    pub diff: Vec<PokerLogUpdate>,
}

/// Something that happened in a hand, with all that any viewer may see.
#[derive(Clone, Debug)]
pub enum PokerGlobalViewDiff<P> {
    Common(PokerViewDiff<P>),
    Draw { player: P, drawn: Vec<CardState> },
    Replace { player: P, drawn: Vec<CardState>, discard: Vec<CardState> },
}

/// Why a bet is not accepted.
pub type BetInvalidError = String;

/// How a bet of `chips` is called in the log, where the player had bet
/// `bet_this_round` before and the bet to match is `last_bet`.
pub open spec fn bet_diff(chips: Chips, bet_this_round: Chips, last_bet: Chips) -> (BetDiffKind, Chips) {
    let call_amount = (chips - bet_this_round) as Chips;
    if (last_bet == 0 && chips == 0) || call_amount == 0 {
        (BetDiffKind::Check, call_amount)
    } else if chips <= last_bet {
        (BetDiffKind::Call, call_amount)
    } else {
        (BetDiffKind::Raise { diff_from_last_raise: (chips - last_bet) as Chips, total: chips }, chips)
    }
}

impl<P> PokerViewDiff<P> {
    /// The log entry for a blind or an ante called `name`.
    pub fn from_blind_name(chips: Chips, better: P, name: String) -> (r: PokerViewDiff<P>)
        ensures
            r == (PokerViewDiff::Bet { bet_kind: BetDiffKind::Blind(name), player: better, chips }),
    {
        PokerViewDiff::Bet { bet_kind: BetDiffKind::Blind(name), player: better, chips }
    }

    /// The log entry for a bet: a check where nothing is added, a call
    /// where the bet does not go beyond the last one, and a raise else.
    pub fn from_player_bet_min_bet(
        better: P,
        chips: Chips,
        bet_this_round: Chips,
        last_bet: Chips,
    ) -> (r: PokerViewDiff<P>)
        requires
            chips >= 0,
            bet_this_round >= 0,
            last_bet >= 0,
        ensures
            r == (PokerViewDiff::Bet {
                bet_kind: bet_diff(chips, bet_this_round, last_bet).0,
                player: better,
                chips: bet_diff(chips, bet_this_round, last_bet).1,
            }),
    {
        let call_amount = chips - bet_this_round;
        if (last_bet == 0 && chips == 0) || (call_amount == 0) {
            PokerViewDiff::Bet { bet_kind: BetDiffKind::Check, player: better, chips: call_amount }
        } else if chips <= last_bet {
            PokerViewDiff::Bet { bet_kind: BetDiffKind::Call, player: better, chips: call_amount }
        } else {
            let raise = chips - last_bet;
            PokerViewDiff::Bet {
                bet_kind: BetDiffKind::Raise { diff_from_last_raise: raise, total: chips },
                player: better,
                chips,
            }
        }
    }
}

impl PokerViewDiff<PlayerRole> {
    /// The log entry for cards dealt to `player`, as `viewer` sees them.
    pub fn from_drawn_viewer(player: PlayerRole, drawn: &Vec<CardState>, viewer: Option<PlayerRole>) -> (r:
        PokerViewDiff<PlayerRole>)
        ensures
            r matches PokerViewDiff::Draw { player: p, drawn: d } && p == player && d@
                == redacted_cards(drawn@, viewer == Some(player)),
    {
        let same_player = match viewer {
            Some(v) => v == player,
            None => false,
        };
        PokerViewDiff::Draw { player, drawn: redact_cards(drawn, same_player) }
    }

    /// The log entry for cards that `player` replaced, as `viewer` sees
    /// them.
    pub fn from_replace_discard_drawn_viewer(
        player: PlayerRole,
        discard: &Vec<CardState>,
        drawn: &Vec<CardState>,
        viewer: Option<PlayerRole>,
    ) -> (r: PokerViewDiff<PlayerRole>)
        ensures
            r matches PokerViewDiff::Replace { player: p, discard: x, drawn: d } && p == player && x@
                == redacted_cards(discard@, viewer == Some(player)) && d@ == redacted_cards(
                drawn@,
                viewer == Some(player),
            ),
    {
        let same_player = match viewer {
            Some(v) => v == player,
            None => false,
        };
        PokerViewDiff::Replace {
            player,
            discard: redact_cards(discard, same_player),
            drawn: redact_cards(drawn, same_player),
        }
    }

    /// The player that the entry is about, if it is about one.
    pub open spec fn subject(self) -> Option<PlayerRole> {
        match self {
            PokerViewDiff::Draw { player, .. } => Some(player),
            PokerViewDiff::Fold { player } => Some(player),
            PokerViewDiff::TurnStart { player } => Some(player),
            PokerViewDiff::Bet { player, .. } => Some(player),
            PokerViewDiff::Replace { player, .. } => Some(player),
            PokerViewDiff::ShowCards { player, .. } => Some(player),
            _ => None,
        }
    }

    /// Every player that the entry names has a name in `mapping`.
    pub open spec fn named_by(self, mapping: Seq<PlayerId>) -> bool {
        match self {
            PokerViewDiff::Winners(w) => all_named(w, mapping),
            _ => self.subject() matches Some(p) ==> p < mapping.len(),
        }
    }

    /// `new` is this entry with each player by the name that `mapping` has
    /// for their role.
    pub open spec fn renamed(self, mapping: Seq<PlayerId>, new: PokerViewDiff<PlayerId>) -> bool {
        match self {
            PokerViewDiff::Draw { player, drawn } => new == (PokerViewDiff::Draw {
                player: mapping[player as int],
                drawn,
            }),
            PokerViewDiff::CommunityDraw { drawn } => new == (PokerViewDiff::<
                PlayerId,
            >::CommunityDraw { drawn }),
            PokerViewDiff::Fold { player } => new == (PokerViewDiff::Fold {
                player: mapping[player as int],
            }),
            PokerViewDiff::TurnStart { player } => new == (PokerViewDiff::TurnStart {
                player: mapping[player as int],
            }),
            PokerViewDiff::Bet { bet_kind, player, chips } => new == (PokerViewDiff::Bet {
                bet_kind,
                player: mapping[player as int],
                chips,
            }),
            PokerViewDiff::Replace { player, discard, drawn } => new == (PokerViewDiff::Replace {
                player: mapping[player as int],
                discard,
                drawn,
            }),
            PokerViewDiff::ShowCards { player, shown, strength } => new == (PokerViewDiff::ShowCards {
                player: mapping[player as int],
                shown,
                strength,
            }),
            PokerViewDiff::Winners(w) => new matches PokerViewDiff::Winners(named) && renames(
                w,
                mapping,
                named,
            ),
            PokerViewDiff::Unknown => new is Unknown,
        }
    }

    /// The same entry, its players by name.
    pub fn convert(self, mapping: &Vec<PlayerId>) -> (r: PokerViewDiff<PlayerId>)
        requires
            self.named_by(mapping@),
        ensures
            self.renamed(mapping@, r),
    {
        match self {
            PokerViewDiff::Draw { player, drawn } => PokerViewDiff::Draw {
                player: mapping[player].clone(),
                drawn,
            },
            PokerViewDiff::CommunityDraw { drawn } => PokerViewDiff::CommunityDraw { drawn },
            PokerViewDiff::Fold { player } => PokerViewDiff::Fold { player: mapping[player].clone() },
            PokerViewDiff::TurnStart { player } => PokerViewDiff::TurnStart {
                player: mapping[player].clone(),
            },
            PokerViewDiff::Bet { bet_kind, player, chips } => PokerViewDiff::Bet {
                bet_kind,
                player: mapping[player].clone(),
                chips,
            },
            PokerViewDiff::Replace { player, discard, drawn } => PokerViewDiff::Replace {
                player: mapping[player].clone(),
                discard,
                drawn,
            },
            PokerViewDiff::ShowCards { player, shown, strength } => PokerViewDiff::ShowCards {
                player: mapping[player].clone(),
                shown,
                strength,
            },
            PokerViewDiff::Winners(ws) => PokerViewDiff::Winners(ws.convert(mapping)),
            PokerViewDiff::Unknown => PokerViewDiff::Unknown,
        }
    }
}

impl PokerGlobalViewDiff<PlayerRole> {
    /// What `viewer` sees of the entry: cards that are not theirs and lie
    /// face down are hidden.
    pub fn player_diff(self, viewer: Option<PlayerRole>) -> (r: PokerViewDiff<PlayerRole>)
        ensures
            match self {
                PokerGlobalViewDiff::Common(diff) => r == diff,
                PokerGlobalViewDiff::Draw { player, drawn } => r matches PokerViewDiff::Draw {
                    player: p,
                    drawn: d,
                } && p == player && d@ == redacted_cards(drawn@, viewer == Some(player)),
                PokerGlobalViewDiff::Replace { player, drawn, discard } => r matches PokerViewDiff::Replace {
                    player: p,
                    discard: x,
                    drawn: d,
                } && p == player && x@ == redacted_cards(discard@, viewer == Some(player)) && d@
                    == redacted_cards(drawn@, viewer == Some(player)),
            },
    {
        match self {
            PokerGlobalViewDiff::Common(diff) => diff,
            PokerGlobalViewDiff::Draw { player, drawn } => PokerViewDiff::from_drawn_viewer(
                player,
                &drawn,
                viewer,
            ),
            PokerGlobalViewDiff::Replace { player, drawn, discard } => {
                PokerViewDiff::from_replace_discard_drawn_viewer(player, &discard, &drawn, viewer)
            },
        }
    }

    /// Every player that the entry names has a name in `mapping`.
    pub open spec fn named_by(self, mapping: Seq<PlayerId>) -> bool {
        match self {
            PokerGlobalViewDiff::Common(diff) => diff.named_by(mapping),
            PokerGlobalViewDiff::Draw { player, .. } => player < mapping.len(),
            PokerGlobalViewDiff::Replace { player, .. } => player < mapping.len(),
        }
    }

    /// The same entry, its players by name.
    pub fn convert(self, mapping: &Vec<PlayerId>) -> (r: PokerGlobalViewDiff<PlayerId>)
        requires
            self.named_by(mapping@),
        ensures
            match self {
                PokerGlobalViewDiff::Common(diff) => r matches PokerGlobalViewDiff::Common(named)
                    && diff.renamed(mapping@, named),
                PokerGlobalViewDiff::Draw { player, drawn } => r == (PokerGlobalViewDiff::Draw {
                    player: mapping@[player as int],
                    drawn,
                }),
                PokerGlobalViewDiff::Replace { player, drawn, discard } => r == (
                PokerGlobalViewDiff::Replace { player: mapping@[player as int], drawn, discard }),
            },
    {
        match self {
            PokerGlobalViewDiff::Common(v) => PokerGlobalViewDiff::Common(v.convert(mapping)),
            PokerGlobalViewDiff::Draw { player, drawn } => PokerGlobalViewDiff::Draw {
                player: mapping[player].clone(),
                drawn,
            },
            PokerGlobalViewDiff::Replace { player, drawn, discard } => PokerGlobalViewDiff::Replace {
                player: mapping[player].clone(),
                drawn,
                discard,
            },
        }
    }
}

/// Whether the viewer is the player called `player`.
pub open spec fn is_viewer(viewer: Option<&PlayerId>, player: PlayerId) -> bool {
    viewer matches Some(v) && v@ == player@
}

fn same_name(viewer: Option<&PlayerId>, player: &PlayerId) -> (r: bool)
    ensures
        r == is_viewer(viewer, *player),
{
    match viewer {
        Some(v) => *v == *player,
        None => false,
    }
}

impl PokerGlobalViewDiff<PlayerId> {
    /// What `viewer` sees of the entry: cards that are not theirs and lie
    /// face down are hidden.
    pub fn player_diff(self, viewer: Option<&PlayerId>) -> (r: PokerViewDiff<PlayerId>)
        ensures
            match self {
                PokerGlobalViewDiff::Common(diff) => r == diff,
                PokerGlobalViewDiff::Draw { player, drawn } => r matches PokerViewDiff::Draw {
                    player: p,
                    drawn: d,
                } && p == player && d@ == redacted_cards(drawn@, is_viewer(viewer, player)),
                PokerGlobalViewDiff::Replace { player, drawn, discard } => r matches PokerViewDiff::Replace {
                    player: p,
                    discard: x,
                    drawn: d,
                } && p == player && x@ == redacted_cards(discard@, is_viewer(viewer, player)) && d@
                    == redacted_cards(drawn@, is_viewer(viewer, player)),
            },
    {
        match self {
            PokerGlobalViewDiff::Common(diff) => diff,
            PokerGlobalViewDiff::Draw { player, drawn } => {
                let same_player = same_name(viewer, &player);
                PokerViewDiff::Draw { player, drawn: redact_cards(&drawn, same_player) }
            },
            PokerGlobalViewDiff::Replace { player, drawn, discard } => {
                let same_player = same_name(viewer, &player);
                PokerViewDiff::Replace {
                    player,
                    discard: redact_cards(&discard, same_player),
                    drawn: redact_cards(&drawn, same_player),
                }
            },
        }
    }
}

/// What is bet in this round by the players `0..k`, and what they have
/// bet before.
pub open spec fn pot_upto(view: PokerViewState, k: int) -> int
    decreases k,
{
    if k <= 0 {
        0
    } else {
        pot_upto(view, k - 1) + view.players@[k - 1].total_bet + if view.bet_this_round@.contains_key(
            (k - 1) as usize,
        ) {
            view.bet_this_round@[(k - 1) as usize] as int
        } else {
            0
        }
    }
}

impl PokerViewState {
    /// The chips that `role` has not bet yet.
    pub fn bettable_chips(&self, role: PlayerRole) -> (r: Chips)
        requires
            role < self.players@.len(),
            0 <= self.players@[role as int].total_bet <= self.players@[role as int].chips,
        ensures
            r == self.players@[role as int].chips - self.players@[role as int].total_bet,
    {
        let player = &self.players[role];
        player.chips - player.total_bet
    }

    /// Whether the rules accept a bet of `bet` from `role`: all that the
    /// player has left is always accepted; anything else has to match the
    /// call or reach the minimum, and the player has to have the chips.
    pub fn valid_bet(&self, min_bet: Chips, call_amount: Chips, bet: Chips, role: PlayerRole) -> (r:
        Result<(), BetInvalidError>)
        requires
            role < self.players@.len(),
            0 <= self.players@[role as int].total_bet <= self.players@[role as int].chips,
        ensures
            ({
                let bettable = self.players@[role as int].chips - self.players@[role as int].total_bet;
                let too_low = bet != call_amount && bet < min_bet;
                &&& r is Ok <==> bet == bettable || (!too_low && bet <= bettable)
                &&& bet != bettable && too_low ==> r is Err && r->Err_0@ == "Bet less than minimum"@
                &&& bet != bettable && !too_low && bet > bettable ==> r is Err && r->Err_0@
                    == "Player has too few chips"@
            }),
    {
        let bettable = self.bettable_chips(role);
        if bet == bettable {
            return Ok(());
        }
        if bet != call_amount && bet < min_bet {
            return Err(String::from_str("Bet less than minimum"));
        }
        if bet > bettable {
            return Err(String::from_str("Player has too few chips"));
        }
        Ok(())
    }

    /// All the chips that are bet in this hand.
    pub fn pot(&self) -> (r: Chips)
        requires
            forall|k: int|
                0 <= k <= self.players@.len() ==> Chips::MIN <= #[trigger] pot_upto(*self, k)
                    <= Chips::MAX,
        ensures
            r == pot_upto(*self, self.players@.len() as int),
    {
        broadcast use vstd::std_specs::hash::group_hash_axioms;

        let mut total: Chips = 0;
        let mut k: usize = 0;
        while k < self.players.len()
            invariant
                k <= self.players@.len(),
                total == pot_upto(*self, k as int),
                forall|k: int|
                    0 <= k <= self.players@.len() ==> Chips::MIN <= #[trigger] pot_upto(*self, k)
                        <= Chips::MAX,
            decreases self.players@.len() - k,
        {
            let this_round: Chips = match self.bet_this_round.get(&k) {
                Some(v) => *v,
                None => 0,
            };
            proof {
                assert(Chips::MIN <= pot_upto(*self, k + 1) <= Chips::MAX);
            }
            let bet: i64 = self.players[k].total_bet as i64 + this_round as i64;
            total = (total as i64 + bet) as Chips;
            k = k + 1;
        }
        total
    }
}


/// The cards of the community as every viewer sees them: face up.
pub open spec fn community_view(cards: Seq<Card>) -> Seq<CardViewState> {
    Seq::new(
        cards.len(),
        |i: int| CardViewState::Visible(CardState { card: cards[i], facing: Facing::FaceUp }),
    )
}

/// What is bet in the round that is being played.
pub open spec fn bets_in_round(round: Option<RoundState>) -> Map<PlayerRole, Chips> {
    match round {
        Some(RoundState::Bet { all_bets, .. }) => all_bets@,
        _ => Map::empty(),
    }
}

/// The player whose turn it is in the round that is being played.
pub open spec fn turn_in_round(round: Option<RoundState>) -> Option<PlayerRole> {
    match round {
        Some(RoundState::Bet { player, .. }) => Some(player),
        Some(RoundState::Replace { player, .. }) => Some(player),
        _ => None,
    }
}

impl PokerViewState {
    /// What `player` sees of the hand: everything but the cards of the
    /// other players that lie face down.
    pub fn from_handstate_and_player(
        state: &HandState,
        variant: &PokerVariant,
        rules: &SpecialRules,
        player: PlayerRole,
    ) -> (view: PokerViewState)
        ensures
            view.role == player,
            view.players@.len() == state.players@.len(),
            forall|i: int|
                0 <= i < state.players@.len() ==> {
                    let seen = #[trigger] view.players@[i];
                    let p = state.players@[i];
                    &&& seen.chips == p.chips
                    &&& seen.total_bet == p.total_bet
                    &&& seen.folded == p.folded
                    &&& seen.hand@ == redacted_cards(p.hand@, i == player)
                },
            view.community_cards@ == community_view(state.community_cards@),
            view.bet_this_round@ == bets_in_round(state.cur_round),
            view.current_turn == turn_in_round(state.cur_round),
            view.rules@ == rules@,
            view.variant.use_from_hand == variant.use_from_hand,
    {
        let mut players: Vec<PlayerViewState> = Vec::new();
        let mut i: usize = 0;
        while i < state.players.len()
            invariant
                i <= state.players@.len(),
                players@.len() == i,
                forall|k: int|
                    0 <= k < i ==> {
                        let seen = #[trigger] players@[k];
                        let p = state.players@[k];
                        &&& seen.chips == p.chips
                        &&& seen.total_bet == p.total_bet
                        &&& seen.folded == p.folded
                        &&& seen.hand@ == redacted_cards(p.hand@, k == player)
                    },
            decreases state.players@.len() - i,
        {
            let p = &state.players[i];
            players.push(
                PlayerViewState {
                    chips: p.chips,
                    total_bet: p.total_bet,
                    hand: redact_cards(&p.hand, i == player),
                    folded: p.folded,
                },
            );
            i = i + 1;
        }
        let cards = state.community_cards;
        let mut community_cards: Vec<CardViewState> = Vec::new();
        let mut k: usize = 0;
        while k < cards.len()
            invariant
                k <= cards@.len(),
                community_cards@.len() == k,
                forall|m: int|
                    0 <= m < k ==> community_cards@[m] == CardViewState::Visible(
                        CardState { card: cards@[m], facing: Facing::FaceUp },
                    ),
            decreases cards@.len() - k,
        {
            community_cards.push(
                CardViewState::Visible(CardState { card: cards.get(k), facing: Facing::FaceUp }),
            );
            k = k + 1;
        }
        assert(community_cards@ =~= community_view(cards@));
        let (bet_this_round, current_turn): (HashMap<PlayerRole, Chips>, Option<PlayerRole>) =
            match &state.cur_round {
            Some(RoundState::Bet { all_bets, player, .. }) => (all_bets.clone(), Some(*player)),
            Some(RoundState::Replace { player, .. }) => (HashMap::new(), Some(*player)),
            _ => (HashMap::new(), None),
        };
        let mut own_rules: Vec<SpecialCard> = Vec::new();
        let mut j: usize = 0;
        while j < rules.len()
            invariant
                j <= rules@.len(),
                own_rules@ == rules@.take(j as int),
            decreases rules@.len() - j,
        {
            own_rules.push(rules[j]);
            assert(rules@.take(j + 1) =~= rules@.take(j as int).push(rules@[j as int]));
            j = j + 1;
        }
        assert(rules@.take(rules@.len() as int) =~= rules@);
        PokerViewState {
            role: player,
            players,
            community_cards,
            bet_this_round,
            current_turn,
            rules: own_rules,
            variant: PokerVariantViewState { use_from_hand: variant.use_from_hand },
        }
    }
}

} // verus!
