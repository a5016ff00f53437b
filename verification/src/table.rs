//! A table between hands: its rules, who sits where and who deals, the
//! antes as they grow, and the log of what happened.

use crate::game::{Chips, PlayerId, PlayerRole, PokerVariants};
use vstd::prelude::*;
use vstd::std_specs::convert::FromSpecImpl;
use vstd::string::StringExecFns;

verus! {

/// A bet that a player has to make before the cards are dealt.
#[derive(Copy, Clone, Debug, Eq, PartialEq, Structural)]
pub struct Blind {
    pub amount: Chips,
}

/// What the players pay before the cards are dealt.
#[derive(Clone, Debug, Eq, PartialEq)]
pub enum AnteRule {
    Ante(Chips),
    Blinds(Vec<Blind>),
}

/// The rules of a table for one hand.
#[derive(Clone, Debug, Eq, PartialEq)]
pub struct TableRules {
    pub ante: AnteRule,
    pub ante_name: String,
    pub min_bet: Chips,
}

impl TableRules {
    /// No amount is below nothing, and a bet is at least one chip.
    pub open spec fn wf(self) -> bool {
        &&& self.min_bet > 0
        &&& match self.ante {
            AnteRule::Ante(ante) => ante >= 0,
            AnteRule::Blinds(blinds) => forall|i: int|
                0 <= i < blinds@.len() ==> (#[trigger] blinds@[i]).amount >= 0,
        }
    }
}

/// The highest of the first `k` blinds.
pub open spec fn highest_blind(blinds: Seq<Blind>, k: int) -> Chips
    decreases k,
{
    if k <= 1 {
        blinds[0].amount
    } else {
        let before = highest_blind(blinds, k - 1);
        if blinds[k - 1].amount > before {
            blinds[k - 1].amount
        } else {
            before
        }
    }
}

/// The least bet at a table where `ante` is paid before the cards are
/// dealt: the ante, or the highest of the blinds.
pub open spec fn least_bet(ante: AnteRule) -> Chips {
    match ante {
        AnteRule::Ante(ante) => ante,
        AnteRule::Blinds(blinds) => highest_blind(blinds@, blinds@.len() as int),
    }
}

impl TableRules {
    /// Whether no amount is below nothing and a bet is at least one chip.
    pub fn sound(&self) -> (r: bool)
        ensures
            r == self.wf(),
    {
        if self.min_bet <= 0 {
            return false;
        }
        match &self.ante {
            AnteRule::Ante(ante) => *ante >= 0,
            AnteRule::Blinds(blinds) => {
                let mut i: usize = 0;
                while i < blinds.len()
                    invariant
                        i <= blinds@.len(),
                        self.min_bet > 0,
                        self.ante == AnteRule::Blinds(*blinds),
                        forall|k: int| 0 <= k < i ==> (#[trigger] blinds@[k]).amount >= 0,
                    decreases blinds@.len() - i,
                {
                    if blinds[i].amount < 0 {
                        proof {
                            if self.wf() {
                                assert(self.ante->Blinds_0@[i as int].amount >= 0);
                            }
                        }
                        return false;
                    }
                    i = i + 1;
                }
                true
            },
        }
    }

    /// The rules of a hand for which `ante` is paid, at a table that has
    /// gone by the rules `self` so far: the least bet goes by what is
    /// paid. Tells whether the least bet has changed.
    pub fn with_ante(&self, ante: AnteRule) -> (r: (TableRules, bool))
        requires
            ante matches AnteRule::Blinds(blinds) ==> blinds@.len() > 0,
        ensures
            r.0.ante == ante,
            r.0.ante_name@ == self.ante_name@,
            r.0.min_bet == least_bet(ante),
            r.1 == (least_bet(ante) != self.min_bet),
    {
        let least: Chips = match &ante {
            AnteRule::Ante(ante) => *ante,
            AnteRule::Blinds(blinds) => {
                let mut highest = blinds[0].amount;
                let mut k: usize = 1;
                while k < blinds.len()
                    invariant
                        1 <= k <= blinds@.len(),
                        highest == highest_blind(blinds@, k as int),
                    decreases blinds@.len() - k,
                {
                    if blinds[k].amount > highest {
                        highest = blinds[k].amount;
                    }
                    k = k + 1;
                }
                highest
            },
        };
        let changed = least != self.min_bet;
        (TableRules { ante, ante_name: self.ante_name.clone(), min_bet: least }, changed)
    }
}

/// A place at a table.
#[derive(Eq, Copy, Clone, PartialEq, Structural, Hash, Debug, Ord, PartialOrd)]
pub struct Seat(pub usize);

/// How a table comes by the variant of its next hand.
#[derive(Clone)]
pub enum PokerVariantState {
    Rotation { variants: PokerVariants, idx: usize },
    DealersChoice { variants: PokerVariants },
}

/// How a table is set up to come by its variants.
#[derive(Clone)]
pub enum PokerVariantSelector {
    Rotation(PokerVariants),
    DealersChoice(PokerVariants),
}

/// How a table is set up.
#[derive(Clone)]
pub struct TableConfig {
    pub max_players: usize,
    pub starting_chips: Chips,
    pub variant_selector: PokerVariantSelector,
}

/// Why a player could not join a table.
#[derive(Copy, Clone, Debug, Eq, PartialEq, Structural)]
pub enum JoinError {
    Full,
    AlreadyJoined,
}


impl From<PokerVariantSelector> for PokerVariantState {
    /// The state in which a table with the selector `selector` begins.
    fn from(selector: PokerVariantSelector) -> (r: PokerVariantState) {
        PokerVariantState::from_selector(selector)
    }
}

impl FromSpecImpl<PokerVariantSelector> for PokerVariantState {
    open spec fn obeys_from_spec() -> bool {
        true
    }

    open spec fn from_spec(selector: PokerVariantSelector) -> PokerVariantState {
        match selector {
            PokerVariantSelector::Rotation(variants) => PokerVariantState::Rotation {
                variants,
                idx: 0,
            },
            PokerVariantSelector::DealersChoice(variants) => PokerVariantState::DealersChoice {
                variants,
            },
        }
    }
}

impl PokerVariantState {
    /// The state in which a table with the selector `selector` begins.
    pub fn from_selector(selector: PokerVariantSelector) -> (r: PokerVariantState)
        ensures
            match selector {
                PokerVariantSelector::Rotation(variants) => r matches PokerVariantState::Rotation {
                    variants: v,
                    idx,
                } && v == variants && idx == 0,
                PokerVariantSelector::DealersChoice(variants) => r matches PokerVariantState::DealersChoice {
                    variants: v,
                } && v == variants,
            },
    {
        match selector {
            PokerVariantSelector::Rotation(variants) => PokerVariantState::Rotation {
                variants,
                idx: 0,
            },
            PokerVariantSelector::DealersChoice(variants) => PokerVariantState::DealersChoice {
                variants,
            },
        }
    }

    /// The place in the list of the variant that a rotation plays next,
    /// the rotation moving on by one; `None` where the dealer chooses, or
    /// where there is no variant to play.
    pub fn next_in_rotation(&mut self) -> (r: Option<usize>)
        ensures
            match *old(self) {
                PokerVariantState::Rotation { variants, idx } => {
                    let chosen = if idx >= variants.descs@.len() {
                        0
                    } else {
                        idx
                    };
                    if variants.descs@.len() == 0 {
                        r is None && *final(self) == *old(self)
                    } else {
                        &&& r == Some(chosen)
                        &&& *final(self) matches PokerVariantState::Rotation { variants: v, idx: i }
                        &&& v == variants
                        &&& i == chosen + 1
                    }
                },
                PokerVariantState::DealersChoice { .. } => r is None && *final(self) == *old(self),
            },
    {
        match self {
            PokerVariantState::Rotation { variants, idx } => {
                if variants.descs.len() == 0 {
                    return None;
                }
                let chosen: usize = if *idx >= variants.descs.len() {
                    0
                } else {
                    *idx
                };
                *idx = chosen + 1;
                Some(chosen)
            },
            PokerVariantState::DealersChoice { .. } => None,
        }
    }
}

/// A player at a table and the chips they have.
#[derive(Clone, Debug, Eq, PartialEq)]
pub struct SeatedPlayer {
    pub player_id: PlayerId,
    pub chips: Chips,
}

/// The seat after `seat` at a table of `n` seats.
pub open spec fn seat_after(seat: int, n: int) -> int {
    if seat + 1 >= n {
        0
    } else {
        seat + 1
    }
}

/// The seat that is `k` seats after `start`.
pub open spec fn seat_at(start: int, n: int, k: int) -> int {
    if start + k >= n {
        start + k - n
    } else {
        start + k
    }
}

/// The seats among the first `k` from `start` on whose players have chips,
/// in that order: the players of the next hand, by role.
pub open spec fn seats_in_play(seats: Seq<SeatedPlayer>, start: int, k: int) -> Seq<Seat>
    decreases k,
{
    if k <= 0 {
        Seq::empty()
    } else {
        let rest = seats_in_play(seats, start, k - 1);
        let seat = seat_at(start, seats.len() as int, k - 1);
        if seats[seat].chips > 0 {
            rest.push(Seat(seat as usize))
        } else {
            rest
        }
    }
}

/// The seat that deals the next hand: the one after the last dealer, or
/// the first seat.
pub open spec fn next_dealer(last_dealer: Option<Seat>, n: int) -> int {
    match last_dealer {
        Some(Seat(seat)) => seat_after(seat as int, n),
        None => 0,
    }
}

/// Some seat is taken by the player `id`.
pub open spec fn is_seated(seats: Seq<SeatedPlayer>, id: Seq<char>) -> bool {
    exists|i: int| 0 <= i < seats.len() && (#[trigger] seats[i]).player_id@ == id
}

/// Who sits at a table, and who dealt last.
pub struct TableSeats {
    pub seats: Vec<SeatedPlayer>,
    pub last_dealer: Option<Seat>,
}

impl TableSeats {
    /// A table at which nobody sits.
    pub fn new() -> (r: TableSeats)
        ensures
            r.seats@.len() == 0,
            r.last_dealer is None,
    {
        TableSeats { seats: Vec::new(), last_dealer: None }
    }

    /// Seats a player with `starting_chips` on the next free seat. A table
    /// that holds `max_players` is full, and nobody sits twice.
    pub fn join(&mut self, player_id: PlayerId, max_players: usize, starting_chips: Chips) -> (r:
        Result<Seat, JoinError>)
        ensures
            final(self).last_dealer == old(self).last_dealer,
            old(self).seats@.len() >= max_players ==> r == Err::<Seat, JoinError>(JoinError::Full),
            old(self).seats@.len() < max_players && is_seated(old(self).seats@, player_id@) ==> r
                == Err::<Seat, JoinError>(JoinError::AlreadyJoined),
            r is Err ==> final(self).seats == old(self).seats,
            old(self).seats@.len() < max_players && !is_seated(old(self).seats@, player_id@) ==> {
                &&& r == Ok::<Seat, JoinError>(Seat(old(self).seats@.len() as usize))
                &&& final(self).seats@ == old(self).seats@.push(
                    SeatedPlayer { player_id, chips: starting_chips },
                )
            },
    {
        if self.seats.len() >= max_players {
            return Err(JoinError::Full);
        }
        let mut i: usize = 0;
        while i < self.seats.len()
            invariant
                i <= self.seats@.len(),
                self.seats@.len() < max_players,
                self.seats == old(self).seats,
                self.last_dealer == old(self).last_dealer,
                forall|k: int| 0 <= k < i ==> (#[trigger] self.seats@[k]).player_id@ != player_id@,
            decreases self.seats@.len() - i,
        {
            if self.seats[i].player_id == player_id {
                return Err(JoinError::AlreadyJoined);
            }
            i = i + 1;
        }
        let seat = Seat(self.seats.len());
        self.seats.push(SeatedPlayer { player_id, chips: starting_chips });
        Ok(seat)
    }

    /// The seats of the players of the next hand, by role: every player
    /// who has chips, beginning with the seat after the last dealer.
    pub fn next_round_roles(&self) -> (roles: Vec<Seat>)
        requires
            self.last_dealer matches Some(Seat(seat)) ==> seat < self.seats@.len(),
        ensures
            roles@ == seats_in_play(
                self.seats@,
                next_dealer(self.last_dealer, self.seats@.len() as int),
                self.seats@.len() as int,
            ),
    {
        let n = self.seats.len();
        let mut roles: Vec<Seat> = Vec::new();
        if n == 0 {
            return roles;
        }
        let start: usize = match self.last_dealer {
            Some(Seat(seat)) => if seat + 1 >= n {
                0
            } else {
                seat + 1
            },
            None => 0,
        };
        let mut k: usize = 0;
        while k < n
            invariant
                k <= n,
                n == self.seats@.len(),
                start < n,
                roles@ == seats_in_play(self.seats@, start as int, k as int),
            decreases n - k,
        {
            let seat: usize = if start >= n - k {
                start - (n - k)
            } else {
                start + k
            };
            if self.seats[seat].chips > 0 {
                roles.push(Seat(seat));
            }
            k = k + 1;
        }
        roles
    }

    /// Begins a hand: tells the seats of its players by role, and keeps
    /// the seat of its dealer, who is the first of them, for the hand after
    /// it. Where nobody has chips there is no dealer to keep.
    pub fn begin_round(&mut self) -> (roles: Vec<Seat>)
        requires
            old(self).last_dealer matches Some(Seat(seat)) ==> seat < old(self).seats@.len(),
        ensures
            roles@ == seats_in_play(
                old(self).seats@,
                next_dealer(old(self).last_dealer, old(self).seats@.len() as int),
                old(self).seats@.len() as int,
            ),
            final(self).seats == old(self).seats,
            final(self).last_dealer == if roles@.len() > 0 {
                Some(roles@[0])
            } else {
                None
            },
    {
        let roles = self.next_round_roles();
        self.last_dealer = if roles.len() > 0 {
            Some(roles[0])
        } else {
            None
        };
        roles
    }

    /// Hands out what a hand has brought or cost: the player on the seat
    /// of each role gets the chips that `deltas` has for the role.
    pub fn settle(&mut self, roles: &Vec<Seat>, deltas: &Vec<Chips>)
        requires
            roles@.len() == deltas@.len(),
            forall|i: int| 0 <= i < roles@.len() ==> (#[trigger] roles@[i]).0 < old(self).seats@.len(),
            forall|i: int, j: int| 0 <= i < j < roles@.len() ==> roles@[i] != roles@[j],
            forall|i: int|
                0 <= i < roles@.len() ==> Chips::MIN <= old(self).seats@[roles@[i].0 as int].chips
                    + #[trigger] deltas@[i] <= Chips::MAX,
        ensures
            final(self).seats@.len() == old(self).seats@.len(),
            final(self).last_dealer == old(self).last_dealer,
            forall|s: int|
                0 <= s < old(self).seats@.len() ==> (#[trigger] final(self).seats@[s]).player_id
                    == old(self).seats@[s].player_id,
            forall|i: int|
                0 <= i < roles@.len() ==> (#[trigger] final(self).seats@[roles@[i].0 as int]).chips
                    == old(self).seats@[roles@[i].0 as int].chips + deltas@[i],
            forall|s: int|
                0 <= s < old(self).seats@.len() && (forall|i: int|
                    0 <= i < roles@.len() ==> (#[trigger] roles@[i]).0 != s) ==> (
                #[trigger] final(self).seats@[s]).chips == old(self).seats@[s].chips,
    {
        let mut i: usize = 0;
        while i < roles.len()
            invariant
                i <= roles@.len(),
                roles@.len() == deltas@.len(),
                self.seats@.len() == old(self).seats@.len(),
                self.last_dealer == old(self).last_dealer,
                forall|i: int|
                    0 <= i < roles@.len() ==> (#[trigger] roles@[i]).0 < old(self).seats@.len(),
                forall|i: int, j: int| 0 <= i < j < roles@.len() ==> roles@[i] != roles@[j],
                forall|i: int|
                    0 <= i < roles@.len() ==> Chips::MIN <= old(
                        self,
                    ).seats@[roles@[i].0 as int].chips + #[trigger] deltas@[i] <= Chips::MAX,
                forall|s: int|
                    0 <= s < self.seats@.len() ==> (#[trigger] self.seats@[s]).player_id == old(
                        self,
                    ).seats@[s].player_id,
                forall|k: int|
                    0 <= k < i ==> (#[trigger] self.seats@[roles@[k].0 as int]).chips == old(
                        self,
                    ).seats@[roles@[k].0 as int].chips + deltas@[k],
                forall|s: int|
                    0 <= s < self.seats@.len() && (forall|k: int|
                        0 <= k < i ==> (#[trigger] roles@[k]).0 != s) ==> (
                    #[trigger] self.seats@[s]).chips == old(self).seats@[s].chips,
            decreases roles@.len() - i,
        {
            let Seat(seat) = roles[i];
            let ghost before = self.seats@;
            proof {
                assert forall|k: int| 0 <= k < i implies (#[trigger] roles@[k]).0 != seat by {
                    assert(roles@[k] != roles@[i as int]);
                }
                assert(before[seat as int].chips == old(self).seats@[seat as int].chips);
            }
            let chips = self.seats[seat].chips + deltas[i];
            self.seats[seat].chips = chips;
            proof {
                assert forall|k: int| 0 <= k < i + 1 implies (
                #[trigger] self.seats@[roles@[k].0 as int]).chips == old(
                    self,
                ).seats@[roles@[k].0 as int].chips + deltas@[k] by {
                    if k < i {
                        assert(roles@[k] != roles@[i as int]);
                        assert(self.seats@[roles@[k].0 as int] == before[roles@[k].0 as int]);
                    }
                }
                assert forall|s: int|
                    0 <= s < self.seats@.len() && (forall|k: int|
                        0 <= k < i + 1 ==> (#[trigger] roles@[k]).0 != s) implies (
                #[trigger] self.seats@[s]).chips == old(self).seats@[s].chips by {
                    assert(roles@[i as int].0 != s);
                    assert(self.seats@[s] == before[s]);
                }
            }
            i = i + 1;
        }
    }

    /// Whether more than one player has chips, so that another hand can
    /// be played.
    pub fn can_go_on(&self) -> (r: bool)
        ensures
            r == (funded_seats(self.seats@, self.seats@.len() as int) > 1),
    {
        let mut count: usize = 0;
        let mut i: usize = 0;
        while i < self.seats.len()
            invariant
                i <= self.seats@.len(),
                count <= i,
                count == funded_seats(self.seats@, i as int),
            decreases self.seats@.len() - i,
        {
            if self.seats[i].chips > 0 {
                count = count + 1;
            }
            i = i + 1;
        }
        count > 1
    }
}

/// How many of the first `k` seats have chips.
pub open spec fn funded_seats(seats: Seq<SeatedPlayer>, k: int) -> nat
    decreases k,
{
    if k <= 0 {
        0
    } else {
        funded_seats(seats, k - 1) + if seats[k - 1].chips > 0 {
            1nat
        } else {
            0nat
        }
    }
}

/// The stretch of the log of a table that belongs to one round.
#[derive(Copy, Clone, Debug, Eq, PartialEq, Structural)]
pub struct HandLog {
    pub round: usize,
    pub start: usize,
    pub end: usize,
}

/// Where in the log of a table the rounds begin and end. The entries
/// themselves are kept by whoever keeps the book; the book knows how many
/// there are.
pub struct LogBook {
    pub old_logs: Vec<HandLog>,
    pub cur_len: usize,
    pub last_log_read: usize,
}

/// Where the round that is being played begins in the log.
pub open spec fn open_start(old_logs: Seq<HandLog>) -> usize {
    if old_logs.len() == 0 {
        0
    } else {
        old_logs.last().end
    }
}

/// The stretches among the first `k` closed rounds that begin at
/// `start_from` or later.
pub open spec fn closed_since(old_logs: Seq<HandLog>, start_from: usize, k: int) -> Seq<HandLog>
    decreases k,
{
    if k <= 0 {
        Seq::empty()
    } else {
        let rest = closed_since(old_logs, start_from, k - 1);
        if old_logs[k - 1].start >= start_from {
            rest.push(old_logs[k - 1])
        } else {
            rest
        }
    }
}

/// What a reader who has read `start_from` entries is sent: every closed
/// round that begins at `start_from` or later, whole, and of the round
/// that is being played the entries from `start_from` on.
pub open spec fn log_since(book: LogBook, start_from: usize) -> Seq<HandLog> {
    let closed = closed_since(book.old_logs@, start_from, book.old_logs@.len() as int);
    if book.cur_len > start_from {
        let begin = if start_from > open_start(book.old_logs@) {
            start_from
        } else {
            open_start(book.old_logs@)
        };
        closed.push(HandLog { round: book.old_logs@.len() as usize, start: begin, end: book.cur_len })
    } else {
        closed
    }
}

impl LogBook {
    /// An empty book.
    pub fn new() -> (r: LogBook)
        ensures
            r.old_logs@.len() == 0,
            r.cur_len == 0,
            r.last_log_read == 0,
    {
        LogBook { old_logs: Vec::new(), cur_len: 0, last_log_read: 0 }
    }

    /// Notes that one entry was added to the log for something that
    /// happened at the table.
    pub fn add_table_event(&mut self)
        requires
            old(self).cur_len < usize::MAX,
        ensures
            final(self).cur_len == old(self).cur_len + 1,
            final(self).old_logs == old(self).old_logs,
            final(self).last_log_read == old(self).last_log_read,
    {
        self.cur_len = self.cur_len + 1;
    }

    /// Takes over what is new in the log of the hand, which holds
    /// `hand_log_len` entries: tells which of them are to be added to the
    /// log of the table, as a range of positions in the log of the hand.
    pub fn add_hand_logs(&mut self, hand_log_len: usize) -> (new: (usize, usize))
        requires
            old(self).last_log_read <= hand_log_len,
            old(self).cur_len + (hand_log_len - old(self).last_log_read) <= usize::MAX,
        ensures
            new == (old(self).last_log_read, hand_log_len),
            final(self).cur_len == old(self).cur_len + (hand_log_len - old(self).last_log_read),
            final(self).last_log_read == hand_log_len,
            final(self).old_logs == old(self).old_logs,
    {
        let from = self.last_log_read;
        self.cur_len = self.cur_len + (hand_log_len - from);
        self.last_log_read = hand_log_len;
        (from, hand_log_len)
    }

    /// Closes the round that is being played: its stretch of the log ends
    /// where the log ends now.
    pub fn new_round(&mut self)
        requires
            old(self).old_logs@.len() < usize::MAX,
        ensures
            final(self).cur_len == old(self).cur_len,
            final(self).last_log_read == old(self).last_log_read,
            final(self).old_logs@ == old(self).old_logs@.push(
                HandLog {
                    round: (old(self).old_logs@.len() + 1) as usize,
                    start: open_start(old(self).old_logs@),
                    end: old(self).cur_len,
                },
            ),
    {
        let start = if self.old_logs.len() == 0 {
            0
        } else {
            self.old_logs[self.old_logs.len() - 1].end
        };
        let round = self.old_logs.len() + 1;
        self.old_logs.push(HandLog { round, start, end: self.cur_len });
    }

    /// The stretches of the log that a reader who has read `start_from`
    /// entries is sent.
    pub fn logs(&self, start_from: usize) -> (r: Vec<HandLog>)
        ensures
            r@ == log_since(*self, start_from),
    {
        let mut retval: Vec<HandLog> = Vec::new();
        let mut i: usize = 0;
        while i < self.old_logs.len()
            invariant
                i <= self.old_logs@.len(),
                retval@ == closed_since(self.old_logs@, start_from, i as int),
            decreases self.old_logs@.len() - i,
        {
            let log = self.old_logs[i];
            if log.start >= start_from {
                retval.push(log);
            }
            i = i + 1;
        }
        if self.cur_len > start_from {
            let last_end = if self.old_logs.len() == 0 {
                0
            } else {
                self.old_logs[self.old_logs.len() - 1].end
            };
            let start = if start_from > last_end {
                start_from
            } else {
                last_end
            };
            retval.push(HandLog { round: self.old_logs.len(), start, end: self.cur_len });
        }
        retval
    }
}

/// How the blinds or the ante of a table grow.
#[derive(Eq, PartialEq, Structural, Clone, Copy, Debug)]
pub enum AnteRuleChangeDesc {
    Constant,
    MulEveryNRounds { mul: Chips, rounds: usize },
    MulEveryNSeconds { mul: Chips, seconds: u32 },
}

/// What a table asks of its players before the cards are dealt, and how
/// that grows.
#[derive(Eq, PartialEq, Structural, Clone, Copy, Debug)]
pub struct AnteRuleDesc {
    pub starting_value: Chips,
    pub blinds: bool,
    pub change: AnteRuleChangeDesc,
}

/// `base` multiplied `times` times by `mul`; `None` as soon as the
/// product does not fit in `Chips`.
pub open spec fn grown(base: Chips, mul: Chips, times: nat) -> Option<Chips>
    decreases times,
{
    if times == 0 {
        Some(base)
    } else {
        match grown(base, mul, (times - 1) as nat) {
            None => None,
            Some(v) => if Chips::MIN <= v * mul <= Chips::MAX {
                Some((v * mul) as Chips)
            } else {
                None
            },
        }
    }
}

impl AnteRuleDesc {
    /// How often the amount has been multiplied after `round` rounds and
    /// `uptime_secs` seconds; `None` where the rule divides by nothing.
    pub open spec fn steps(self, round: usize, uptime_secs: u64) -> Option<nat> {
        match self.change {
            AnteRuleChangeDesc::Constant => Some(0),
            AnteRuleChangeDesc::MulEveryNRounds { rounds, .. } => if rounds == 0 {
                None
            } else {
                Some((round / rounds) as nat)
            },
            AnteRuleChangeDesc::MulEveryNSeconds { seconds, .. } => if seconds == 0 {
                None
            } else {
                Some((uptime_secs / (seconds as u64)) as nat)
            },
        }
    }

    /// The factor by which the amount grows at each step.
    pub open spec fn factor(self) -> Chips {
        match self.change {
            AnteRuleChangeDesc::Constant => 1,
            AnteRuleChangeDesc::MulEveryNRounds { mul, .. } => mul,
            AnteRuleChangeDesc::MulEveryNSeconds { mul, .. } => mul,
        }
    }

    /// The lowest amount that is due after `round` rounds and
    /// `uptime_secs` seconds.
    pub open spec fn low_blind(self, round: usize, uptime_secs: u64) -> Option<Chips> {
        match self.steps(round, uptime_secs) {
            None => None,
            Some(times) => grown(self.starting_value, self.factor(), times),
        }
    }

    /// What is due before the cards are dealt in round `round` of a table
    /// that has been running for `uptime_secs` seconds: two blinds, the
    /// second twice the first, or an ante. `None` where the rule divides
    /// by nothing or the amounts do not fit in `Chips`.
    pub fn rule(&self, round: usize, uptime_secs: u64) -> (r: Option<AnteRule>)
        ensures
            match self.low_blind(round, uptime_secs) {
                None => r is None,
                Some(low) => if self.blinds {
                    if Chips::MIN <= 2 * low <= Chips::MAX {
                        r matches Some(AnteRule::Blinds(blinds)) && blinds@ == seq![
                            Blind { amount: low },
                            Blind { amount: (2 * low) as Chips },
                        ]
                    } else {
                        r is None
                    }
                } else {
                    r matches Some(AnteRule::Ante(ante)) && ante == low
                },
            },
    {
        let (mul, times): (Chips, u64) = match self.change {
            AnteRuleChangeDesc::Constant => (1, 0),
            AnteRuleChangeDesc::MulEveryNRounds { mul, rounds } => {
                if rounds == 0 {
                    return None;
                }
                (mul, (round / rounds) as u64)
            },
            AnteRuleChangeDesc::MulEveryNSeconds { mul, seconds } => {
                if seconds == 0 {
                    return None;
                }
                (mul, uptime_secs / (seconds as u64))
            },
        };
        let mut low: Chips = self.starting_value;
        let mut k: u64 = 0;
        assert(self.steps(round, uptime_secs) == Some(times as nat));
        assert(self.factor() == mul);
        while k < times
            invariant
                k <= times,
                self.steps(round, uptime_secs) == Some(times as nat),
                self.factor() == mul,
                grown(self.starting_value, mul, k as nat) == Some(low),
            decreases times - k,
        {
            match low.checked_mul(mul) {
                None => {
                    proof {
                        lemma_grown_fails(self.starting_value, mul, (k + 1) as nat, times as nat);
                    }
                    return None;
                },
                Some(v) => {
                    low = v;
                },
            }
            k = k + 1;
        }
        if self.blinds {
            match low.checked_mul(2) {
                None => None,
                Some(high) => {
                    let mut blinds: Vec<Blind> = Vec::new();
                    blinds.push(Blind { amount: low });
                    blinds.push(Blind { amount: high });
                    assert(blinds@ =~= seq![Blind { amount: low }, Blind { amount: high }]);
                    Some(AnteRule::Blinds(blinds))
                },
            }
        } else {
            Some(AnteRule::Ante(low))
        }
    }

    /// The rules with which a table begins: what is due in its first
    /// round, and a least bet of the highest amount that is due.
    pub fn starting_rules(&self) -> (r: Option<TableRules>)
        ensures
            r is Some <==> (self.low_blind(0, 0) matches Some(low) && (self.blinds ==> Chips::MIN <= 2
                * low <= Chips::MAX)),
            r matches Some(rules) ==> {
                let low = self.low_blind(0, 0)->Some_0;
                &&& rules.ante_name@ == (if self.blinds {
                    "Ante"@
                } else {
                    "Blind"@
                })
                &&& if self.blinds {
                    &&& rules.ante matches AnteRule::Blinds(blinds) && blinds@ == seq![
                        Blind { amount: low },
                        Blind { amount: (2 * low) as Chips },
                    ]
                    &&& rules.min_bet == if low >= 2 * low {
                        low
                    } else {
                        (2 * low) as Chips
                    }
                } else {
                    rules.ante == AnteRule::Ante(low) && rules.min_bet == low
                }
            },
    {
        let ante_name = if self.blinds {
            String::from_str("Ante")
        } else {
            String::from_str("Blind")
        };
        match self.rule(0, 0) {
            None => None,
            Some(AnteRule::Ante(ante)) => Some(
                TableRules { ante: AnteRule::Ante(ante), ante_name, min_bet: ante },
            ),
            Some(AnteRule::Blinds(blinds)) => {
                let low = blinds[0].amount;
                let high = blinds[1].amount;
                let min_bet = if low >= high {
                    low
                } else {
                    high
                };
                Some(TableRules { ante: AnteRule::Blinds(blinds), ante_name, min_bet })
            },
        }
    }
}

proof fn lemma_grown_fails(base: Chips, mul: Chips, k: nat, m: nat)
    requires
        k <= m,
        grown(base, mul, k) is None,
    ensures
        grown(base, mul, m) is None,
    decreases m - k,
{
    if k < m {
        lemma_grown_fails(base, mul, k, (m - 1) as nat);
    }
}

} // verus!
