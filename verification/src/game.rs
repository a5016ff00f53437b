//! The variants of the game and the rounds that they are made of, and
//! what players answer when they are asked.

use crate::gamestate::PlayerState;
use crate::special_card::SpecialCardGroupDesc;
use vstd::prelude::*;
use vstd::string::StringExecFns;

verus! {

/// An amount of chips.
pub type Chips = i32;

/// The name under which a player sits at a table.
pub type PlayerId = String;

/// A seat for the length of one hand: 0 is the dealer, 1 sits to the left
/// of the dealer, and so on.
pub type PlayerRole = usize;

/// Which side of a card is up.
#[derive(Copy, Clone, Debug, Hash, Eq, PartialEq, Structural)]
pub enum Facing {
    FaceUp,
    FaceDown,
}

/// What a player does when it is their turn to bet.
#[derive(Copy, Clone, Debug, Hash, Eq, PartialEq, Structural)]
pub enum BetResp {
    Bet(Chips),
    Fold,
}

/// The positions in their hand of the cards that a player gives back.
pub type ReplaceResp = Vec<usize>;

/// What a player answers when asked to act.
#[derive(Clone, Debug, Hash, Eq, PartialEq)]
pub enum PlayerResp {
    Bet(BetResp),
    Replace(ReplaceResp),
}

/// The name of a variant and of the groups of special cards that can be
/// played with it.
#[derive(Clone, Debug, Eq, Hash, PartialEq, Ord, PartialOrd)]
pub struct PokerVariantDesc {
    pub name: String,
    pub special_cards: Vec<SpecialCardGroupDesc>,
}

/// The variants that a table offers.
#[derive(Clone)]
pub struct PokerVariants {
    pub descs: Vec<PokerVariantDesc>,
}

/// What the dealer chose for the next hand.
#[derive(Clone)]
pub struct DealersChoiceResp {
    pub variant_idx: usize,
    pub special_cards: Vec<usize>,
}

/// A rule that says how many cards a player may replace.
#[derive(Copy, Clone, Debug, Eq, PartialEq, Structural)]
pub enum MaxReplace {
    /// Three cards, or four for a player who holds an ace.
    ThreeOrFourWithAce,
}

/// One of the cards of the player is an ace.
pub open spec fn holds_ace(player: PlayerState) -> bool {
    exists|i: int| 0 <= i < player.hand@.len() && (#[trigger] player.hand@[i]).card.rank == 0
}

impl MaxReplace {
    /// How many cards the rule lets `player` replace.
    pub open spec fn limit(self, player: PlayerState) -> nat {
        if holds_ace(player) {
            4
        } else {
            3
        }
    }

    /// How many cards the rule lets `player` replace.
    pub fn allowed(&self, player: &PlayerState) -> (n: usize)
        ensures
            n == self.limit(*player),
    {
        let mut i: usize = 0;
        while i < player.hand.len()
            invariant
                i <= player.hand@.len(),
                forall|k: int| 0 <= k < i ==> (#[trigger] player.hand@[k]).card.rank != 0,
            decreases player.hand@.len() - i,
        {
            if player.hand[i].card.rank == 0 {
                return 4;
            }
            i = i + 1;
        }
        3
    }
}

/// A phase of a hand.
#[derive(Clone)]
pub enum Round {
    Ante,
    DrawToHand { facing: Vec<Facing> },
    DrawToCommunity { quant: usize },
    Bet { starting_player: PlayerRole },
    Replace { max_replace_fun: MaxReplace, max_possible_replace: usize, extra_replace: usize },
}

/// A phase of a hand, as contracts see it.
pub enum RoundView {
    Ante,
    DrawToHand { facing: Seq<Facing> },
    DrawToCommunity { quant: usize },
    Bet { starting_player: PlayerRole },
    Replace { max_replace_fun: MaxReplace, max_possible_replace: usize, extra_replace: usize },
}

impl View for Round {
    type V = RoundView;

    open spec fn view(&self) -> RoundView {
        match *self {
            Round::Ante => RoundView::Ante,
            Round::DrawToHand { facing } => RoundView::DrawToHand { facing: facing@ },
            Round::DrawToCommunity { quant } => RoundView::DrawToCommunity { quant },
            Round::Bet { starting_player } => RoundView::Bet { starting_player },
            Round::Replace { max_replace_fun, max_possible_replace, extra_replace } => {
                RoundView::Replace { max_replace_fun, max_possible_replace, extra_replace }
            },
        }
    }
}

/// The phases of a hand in the order in which they are played, and how
/// many of their own cards the players may use at the showdown.
#[derive(Clone)]
pub struct PokerVariant {
    pub rules: Vec<Round>,
    pub use_from_hand: usize,
}

impl PokerVariant {
    /// The phases, as contracts see them.
    pub open spec fn phases(self) -> Seq<RoundView> {
        Seq::new(self.rules@.len(), |i: int| self.rules@[i]@)
    }
}

/// A betting phase that the player to the left of the dealer opens.
pub open spec fn bet_phase() -> RoundView {
    RoundView::Bet { starting_player: 1 }
}

/// A phase that deals each player cards faced as `facing` says.
pub open spec fn deal_phase(facing: Seq<Facing>) -> RoundView {
    RoundView::DrawToHand { facing }
}

/// A phase that deals `quant` cards to the community.
pub open spec fn community_phase(quant: usize) -> RoundView {
    RoundView::DrawToCommunity { quant }
}

/// The phases of a hold 'em hand where each player gets `hole` cards.
pub open spec fn hold_em_phases(hole: nat) -> Seq<RoundView> {
    seq![
        RoundView::Ante,
        deal_phase(Seq::new(hole, |i: int| Facing::FaceDown)),
        bet_phase(),
        community_phase(3),
        bet_phase(),
        community_phase(1),
        bet_phase(),
        community_phase(1),
        bet_phase(),
    ]
}

/// `n` cards, all face down.
fn face_down(n: usize) -> (facing: Vec<Facing>)
    ensures
        facing@ == Seq::new(n as nat, |i: int| Facing::FaceDown),
{
    let mut facing: Vec<Facing> = Vec::new();
    let mut i: usize = 0;
    while i < n
        invariant
            i <= n,
            facing@.len() == i,
            forall|k: int| 0 <= k < i ==> facing@[k] == Facing::FaceDown,
        decreases n - i,
    {
        facing.push(Facing::FaceDown);
        i = i + 1;
    }
    assert(facing@ =~= Seq::new(n as nat, |i: int| Facing::FaceDown));
    facing
}

fn hold_em(hole: usize) -> (v: PokerVariant)
    ensures
        v.use_from_hand == 2,
        v.phases() == hold_em_phases(hole as nat),
{
    let mut rules: Vec<Round> = Vec::new();
    rules.push(Round::Ante);
    rules.push(Round::DrawToHand { facing: face_down(hole) });
    rules.push(Round::Bet { starting_player: 1 });
    rules.push(Round::DrawToCommunity { quant: 3 });
    rules.push(Round::Bet { starting_player: 1 });
    rules.push(Round::DrawToCommunity { quant: 1 });
    rules.push(Round::Bet { starting_player: 1 });
    rules.push(Round::DrawToCommunity { quant: 1 });
    rules.push(Round::Bet { starting_player: 1 });
    let v = PokerVariant { rules, use_from_hand: 2 };
    assert(v.phases() =~= hold_em_phases(hole as nat));
    v
}

/// Texas hold 'em: two cards in the hand, five for the community.
pub fn texas_hold_em() -> (v: PokerVariant)
    ensures
        v.use_from_hand == 2,
        v.phases() == hold_em_phases(2),
{
    hold_em(2)
}

/// Omaha hold 'em: four cards in the hand, of which two are used.
pub fn omaha_hold_em() -> (v: PokerVariant)
    ensures
        v.use_from_hand == 2,
        v.phases() == hold_em_phases(4),
{
    hold_em(4)
}

/// The phases of five card stud.
pub open spec fn five_card_stud_phases() -> Seq<RoundView> {
    seq![RoundView::Ante, deal_phase(Seq::new(5, |i: int| Facing::FaceDown)), bet_phase()]
}

/// Five card stud: five cards face down, and one round of betting.
pub fn five_card_stud() -> (v: PokerVariant)
    ensures
        v.use_from_hand == 5,
        v.phases() == five_card_stud_phases(),
{
    let mut rules: Vec<Round> = Vec::new();
    rules.push(Round::Ante);
    rules.push(Round::DrawToHand { facing: face_down(5) });
    rules.push(Round::Bet { starting_player: 1 });
    let v = PokerVariant { rules, use_from_hand: 5 };
    assert(v.phases() =~= five_card_stud_phases());
    v
}

/// The phases of seven card stud.
pub open spec fn seven_card_stud_phases() -> Seq<RoundView> {
    seq![
        RoundView::Ante,
        deal_phase(seq![Facing::FaceDown, Facing::FaceDown, Facing::FaceUp]),
        bet_phase(),
        deal_phase(seq![Facing::FaceUp]),
        bet_phase(),
        deal_phase(seq![Facing::FaceUp]),
        bet_phase(),
        deal_phase(seq![Facing::FaceUp]),
        bet_phase(),
        deal_phase(seq![Facing::FaceDown]),
        bet_phase(),
    ]
}

fn one_card(facing: Facing) -> (v: Vec<Facing>)
    ensures
        v@ == seq![facing],
{
    let mut v: Vec<Facing> = Vec::new();
    v.push(facing);
    assert(v@ =~= seq![facing]);
    v
}

/// Seven card stud: two cards down and one up, three more up, and a last
/// one down, with a round of betting after each deal.
pub fn seven_card_stud() -> (v: PokerVariant)
    ensures
        v.use_from_hand == 5,
        v.phases() == seven_card_stud_phases(),
{
    let mut first = face_down(2);
    first.push(Facing::FaceUp);
    assert(first@ =~= seq![Facing::FaceDown, Facing::FaceDown, Facing::FaceUp]);
    let mut rules: Vec<Round> = Vec::new();
    rules.push(Round::Ante);
    rules.push(Round::DrawToHand { facing: first });
    rules.push(Round::Bet { starting_player: 1 });
    rules.push(Round::DrawToHand { facing: one_card(Facing::FaceUp) });
    rules.push(Round::Bet { starting_player: 1 });
    rules.push(Round::DrawToHand { facing: one_card(Facing::FaceUp) });
    rules.push(Round::Bet { starting_player: 1 });
    rules.push(Round::DrawToHand { facing: one_card(Facing::FaceUp) });
    rules.push(Round::Bet { starting_player: 1 });
    rules.push(Round::DrawToHand { facing: one_card(Facing::FaceDown) });
    rules.push(Round::Bet { starting_player: 1 });
    let v = PokerVariant { rules, use_from_hand: 5 };
    assert(v.phases() =~= seven_card_stud_phases());
    v
}

/// The phases of five card draw.
pub open spec fn five_card_draw_phases() -> Seq<RoundView> {
    seq![
        RoundView::Ante,
        deal_phase(Seq::new(5, |i: int| Facing::FaceDown)),
        bet_phase(),
        RoundView::Replace {
            max_replace_fun: MaxReplace::ThreeOrFourWithAce,
            max_possible_replace: 3,
            extra_replace: 4,
        },
        bet_phase(),
    ]
}

/// Five card draw: five cards face down, a round of betting, cards
/// replaced, and a second round of betting.
pub fn five_card_draw() -> (v: PokerVariant)
    ensures
        v.use_from_hand == 5,
        v.phases() == five_card_draw_phases(),
{
    let mut rules: Vec<Round> = Vec::new();
    rules.push(Round::Ante);
    rules.push(Round::DrawToHand { facing: face_down(5) });
    rules.push(Round::Bet { starting_player: 1 });
    rules.push(
        Round::Replace {
            max_replace_fun: MaxReplace::ThreeOrFourWithAce,
            max_possible_replace: 3,
            extra_replace: 4,
        },
    );
    rules.push(Round::Bet { starting_player: 1 });
    let v = PokerVariant { rules, use_from_hand: 5 };
    assert(v.phases() =~= five_card_draw_phases());
    v
}

/// The names of the variants, in the order of the alphabet.
pub open spec fn variant_names() -> Seq<Seq<char>> {
    seq![
        "Five Card Draw"@,
        "Five Card Stud"@,
        "Omaha Hold 'Em"@,
        "Seven Card Stud"@,
        "Texas Hold 'Em"@,
    ]
}

/// The phases of the variant at position `i` of `variant_names`.
pub open spec fn variant_phases(i: int) -> Seq<RoundView> {
    if i == 0 {
        five_card_draw_phases()
    } else if i == 1 {
        five_card_stud_phases()
    } else if i == 2 {
        hold_em_phases(4)
    } else if i == 3 {
        seven_card_stud_phases()
    } else {
        hold_em_phases(2)
    }
}

/// How many cards of a hand count in the variant at position `i` of
/// `variant_names`.
pub open spec fn variant_use(i: int) -> usize {
    if i == 2 || i == 4 {
        2
    } else {
        5
    }
}

impl PokerVariantDesc {
    /// A variant goes by this name.
    pub open spec fn known(self) -> bool {
        exists|i: int| 0 <= i < 5 && #[trigger] variant_names()[i] == self.name@
    }

    /// The variant that goes by this name.
    pub fn variant(&self) -> (v: PokerVariant)
        requires
            self.known(),
        ensures
            exists|i: int|
                0 <= i < 5 && #[trigger] variant_names()[i] == self.name@ && v.phases()
                    == variant_phases(i) && v.use_from_hand == variant_use(i),
    {
        match self.find_variant() {
            Some(v) => v,
            None => unreached(),
        }
    }

    /// The variant that goes by this name, if there is one.
    pub fn find_variant(&self) -> (v: Option<PokerVariant>)
        ensures
            v is Some <==> exists|i: int| 0 <= i < 5 && #[trigger] variant_names()[i] == self.name@,
            v matches Some(variant) ==> exists|i: int|
                0 <= i < 5 && #[trigger] variant_names()[i] == self.name@ && variant.phases()
                    == variant_phases(i) && variant.use_from_hand == variant_use(i),
    {
        let mut table = PokerVariants::table();
        let ghost names = Seq::new(5, |i: int| table@[i].0@);
        assert(names =~= variant_names());
        let mut found: Option<PokerVariant> = None;
        let ghost mut at: int = 0;
        while table.len() > 0
            invariant
                table@.len() <= 5,
                forall|i: int| 0 <= i < table@.len() ==> (#[trigger] table@[i]).0@ == variant_names()[i],
                forall|i: int|
                    0 <= i < table@.len() ==> (#[trigger] table@[i]).1.phases() == variant_phases(i)
                        && table@[i].1.use_from_hand == variant_use(i),
                found is None ==> forall|i: int|
                    table@.len() <= i < 5 ==> #[trigger] variant_names()[i] != self.name@,
                found matches Some(variant) ==> 0 <= at < 5 && variant_names()[at] == self.name@
                    && variant.phases() == variant_phases(at) && variant.use_from_hand
                    == variant_use(at),
            decreases table@.len(),
        {
            let ghost k = table@.len() - 1;
            let (name, variant) = table.pop().unwrap();
            if found.is_none() && name == self.name {
                found = Some(variant);
                proof {
                    at = k;
                }
            }
        }
        found
    }
}

impl PokerVariants {
    /// Every variant with its name, in the order of the names.
    pub fn table() -> (t: Vec<(String, PokerVariant)>)
        ensures
            t@.len() == 5,
            forall|i: int| 0 <= i < 5 ==> (#[trigger] t@[i]).0@ == variant_names()[i],
            forall|i: int|
                0 <= i < 5 ==> (#[trigger] t@[i]).1.phases() == variant_phases(i) && t@[i].1.use_from_hand
                    == variant_use(i),
    {
        let mut t: Vec<(String, PokerVariant)> = Vec::new();
        t.push((String::from_str("Five Card Draw"), five_card_draw()));
        t.push((String::from_str("Five Card Stud"), five_card_stud()));
        t.push((String::from_str("Omaha Hold 'Em"), omaha_hold_em()));
        t.push((String::from_str("Seven Card Stud"), seven_card_stud()));
        t.push((String::from_str("Texas Hold 'Em"), texas_hold_em()));
        t
    }

    /// The names of all variants, in the order of the names, each with the
    /// names of all groups of special cards.
    pub fn all() -> (v: PokerVariants)
        ensures
            v.descs@.len() == 5,
            forall|i: int| 0 <= i < 5 ==> (#[trigger] v.descs@[i]).name@ == variant_names()[i],
            forall|i: int|
                0 <= i < 5 ==> {
                    let groups = (#[trigger] v.descs@[i]).special_cards@;
                    &&& groups.len() == 2
                    &&& groups[0].name@ == "Twos Wild"@
                    &&& groups[1].name@ == "Man with the axe wins it all"@
                },
    {
        let mut descs: Vec<PokerVariantDesc> = Vec::new();
        let table = PokerVariants::table();
        let mut i: usize = 0;
        while i < table.len()
            invariant
                i <= table@.len(),
                table@.len() == 5,
                descs@.len() == i,
                forall|k: int| 0 <= k < 5 ==> (#[trigger] table@[k]).0@ == variant_names()[k],
                forall|k: int| 0 <= k < i ==> (#[trigger] descs@[k]).name@ == variant_names()[k],
                forall|k: int|
                    0 <= k < i ==> {
                        let groups = (#[trigger] descs@[k]).special_cards@;
                        &&& groups.len() == 2
                        &&& groups[0].name@ == "Twos Wild"@
                        &&& groups[1].name@ == "Man with the axe wins it all"@
                    },
            decreases table@.len() - i,
        {
            let name = table[i].0.clone();
            descs.push(PokerVariantDesc { name, special_cards: SpecialCardGroupDesc::all() });
            i = i + 1;
        }
        PokerVariants { descs }
    }
}

impl DealersChoiceResp {
    /// The first variant, with no special cards.
    pub fn default() -> (r: DealersChoiceResp)
        ensures
            r.variant_idx == 0,
            r.special_cards@.len() == 0,
    {
        DealersChoiceResp { variant_idx: 0, special_cards: Vec::new() }
    }
}

impl Default for DealersChoiceResp {
    /// The first variant, with no special cards.
    fn default() -> (r: DealersChoiceResp)
        ensures
            r.variant_idx == 0,
            r.special_cards@.len() == 0,
    {
        DealersChoiceResp { variant_idx: 0, special_cards: Vec::new() }
    }
}

/// How many cards the first `k` phases may deal to each player.
pub open spec fn cards_per_player(phases: Seq<RoundView>, k: int) -> int
    decreases k,
{
    if k <= 0 {
        0
    } else {
        cards_per_player(phases, k - 1) + match phases[k - 1] {
            RoundView::DrawToHand { facing } => facing.len() as int,
            RoundView::Replace { max_possible_replace, .. } => max_possible_replace as int,
            _ => 0,
        }
    }
}

/// How many cards the first `k` phases may deal to the table as a whole.
pub open spec fn cards_for_table(phases: Seq<RoundView>, k: int) -> int
    decreases k,
{
    if k <= 0 {
        0
    } else {
        cards_for_table(phases, k - 1) + match phases[k - 1] {
            RoundView::DrawToCommunity { quant } => quant as int,
            RoundView::Replace { extra_replace, .. } => extra_replace as int,
            _ => 0,
        }
    }
}

/// A deck of `num_cards` can be dealt by the rules of the variant: the
/// players get cards, and the table gets no more than the deck has.
pub open spec fn can_seat(variant: PokerVariant, num_cards: usize) -> bool {
    let phases = variant.phases();
    let per_player = cards_per_player(phases, phases.len() as int);
    let community = cards_for_table(phases, phases.len() as int);
    0 < per_player <= usize::MAX && community <= num_cards
}

/// How many players a deck of `num_cards` is enough for: the cards that
/// the table does not get, shared out by what a player may be dealt.
pub fn variant_max_players(variant: &PokerVariant, num_cards: usize) -> (r: usize)
    requires
        can_seat(*variant, num_cards),
    ensures
        r == (num_cards - cards_for_table(variant.phases(), variant.phases().len() as int))
            / cards_per_player(variant.phases(), variant.phases().len() as int),
{
    proof {
        let left = num_cards - cards_for_table(variant.phases(), variant.phases().len() as int);
        let each = cards_per_player(variant.phases(), variant.phases().len() as int);
        lemma_cards_counted(variant.phases(), variant.phases().len() as int);
        assert(0 <= left / each <= left) by (nonlinear_arith)
            requires
                0 <= left,
                1 <= each,
        ;
    }
    match seats_for(variant, num_cards) {
        Some(n) => n,
        None => unreached(),
    }
}

proof fn lemma_cards_counted(phases: Seq<RoundView>, k: int)
    ensures
        cards_per_player(phases, k) >= 0,
        cards_for_table(phases, k) >= 0,
    decreases k,
{
    if k > 0 {
        lemma_cards_counted(phases, k - 1);
    }
}

/// How many players a deck of `num_cards` is enough for. `None` when the
/// variant deals no cards to the players, or more to the table than the
/// deck has.
pub fn seats_for(variant: &PokerVariant, num_cards: usize) -> (r: Option<usize>)
    ensures
        ({
            let phases = variant.phases();
            let per_player = cards_per_player(phases, phases.len() as int);
            let community = cards_for_table(phases, phases.len() as int);
            if per_player > 0 && community <= num_cards && per_player <= usize::MAX {
                r == Some(((num_cards - community) / per_player) as usize)
            } else {
                r is None
            }
        }),
{
    let ghost phases = variant.phases();
    let mut per_player: usize = 0;
    let mut community: usize = 0;
    let mut overflow_player = false;
    let mut overflow_table = false;
    let mut i: usize = 0;
    while i < variant.rules.len()
        invariant
            i <= variant.rules@.len(),
            phases == variant.phases(),
            cards_per_player(phases, 0) == 0,
            !overflow_player ==> per_player == cards_per_player(phases, i as int),
            overflow_player ==> cards_per_player(phases, i as int) > usize::MAX,
            !overflow_table ==> community == cards_for_table(phases, i as int),
            overflow_table ==> cards_for_table(phases, i as int) > usize::MAX,
        decreases variant.rules@.len() - i,
    {
        assert(phases[i as int] == variant.rules@[i as int]@);
        let (for_player, for_table): (usize, usize) = match &variant.rules[i] {
            Round::DrawToHand { facing } => (facing.len(), 0),
            Round::DrawToCommunity { quant } => (0, *quant),
            Round::Replace { max_possible_replace, extra_replace, .. } => (
                *max_possible_replace,
                *extra_replace,
            ),
            _ => (0, 0),
        };
        if !overflow_player {
            if for_player > usize::MAX - per_player {
                overflow_player = true;
            } else {
                per_player = per_player + for_player;
            }
        }
        if !overflow_table {
            if for_table > usize::MAX - community {
                overflow_table = true;
            } else {
                community = community + for_table;
            }
        }
        i = i + 1;
    }
    if overflow_player || overflow_table || per_player == 0 || community > num_cards {
        None
    } else {
        Some((num_cards - community) / per_player)
    }
}

} // verus!
