//! The pots of a hand: who has paid into which, who wins which, and how a
//! pot is split among those who tie.

use crate::bitcard::{CardTuple, CARD_TUPLE_CAPACITY};
use crate::card::Card;
use crate::game::{Chips, PlayerId, PlayerRole, PokerVariant};
use crate::gamestate::{CardState, HandState, PlayerState};
use crate::special_card::{SpecialCard, SpecialRules};
use crate::strength::{
    best_hand_use_from_hand, cards_in_hand, is_best_hand, is_best_using, key_order,
    lemma_key_order_total, HandStrength, StrengthKey,
};
use std::collections::HashMap;
use vstd::prelude::*;

verus! {

/// A part of the pot, and the players who can win it.
#[derive(Eq, PartialEq, Debug, Clone)]
pub struct Subpot<P> {
    pub chips: Chips,
    pub players: Vec<P>,
}

/// The parts of the pot, each with the players who win it.
#[derive(Debug, Clone, Eq, PartialEq)]
pub struct Winners<P> {
    pub winners_by_pot: Vec<(Subpot<P>, Vec<P>)>,
}

/// What a player has put towards the part of the pot below `level`.
pub open spec fn contribution(p: PlayerState, level: int) -> int {
    if level <= 0 {
        0
    } else if p.total_bet < level {
        p.total_bet as int
    } else {
        level
    }
}

/// What all players together have put towards the part of the pot below
/// `level`.
pub open spec fn paid_up_to(players: Seq<PlayerState>, level: int) -> int
    decreases players.len(),
{
    if players.len() == 0 {
        0
    } else {
        paid_up_to(players.drop_last(), level) + contribution(players.last(), level)
    }
}

/// All the chips that the players have bet.
pub open spec fn total_staked(players: Seq<PlayerState>) -> int
    decreases players.len(),
{
    if players.len() == 0 {
        0
    } else {
        total_staked(players.drop_last()) + players.last().total_bet
    }
}

/// No player has bet less than nothing, and the pot fits in `Chips`.
pub open spec fn stakes_fit(players: Seq<PlayerState>) -> bool {
    &&& forall|i: int| 0 <= i < players.len() ==> (#[trigger] players[i]).total_bet >= 0
    &&& total_staked(players) <= Chips::MAX
}

/// The players who have not folded and have bet `level` or more, by role.
pub open spec fn contesting(players: Seq<PlayerState>, level: int) -> Seq<PlayerRole>
    decreases players.len(),
{
    if players.len() == 0 {
        Seq::empty()
    } else {
        let rest = contesting(players.drop_last(), level);
        let p = players.last();
        if !p.folded && p.total_bet >= level {
            rest.push((players.len() - 1) as usize)
        } else {
            rest
        }
    }
}

/// The smallest bet above `floor` of a player who has not folded, and
/// `floor` itself if there is no such bet.
pub open spec fn lowest_stake_above(players: Seq<PlayerState>, floor: int) -> int
    decreases players.len(),
{
    if players.len() == 0 {
        floor
    } else {
        let rest = lowest_stake_above(players.drop_last(), floor);
        let p = players.last();
        if !p.folded && p.total_bet > floor && (rest == floor || p.total_bet < rest) {
            p.total_bet as int
        } else {
            rest
        }
    }
}

/// The bets above `floor` of the players who have not folded, each once
/// and lowest first; at most `fuel` of them.
pub open spec fn tiers(players: Seq<PlayerState>, floor: int, fuel: nat) -> Seq<int>
    decreases fuel,
{
    if fuel == 0 {
        Seq::empty()
    } else {
        let level = lowest_stake_above(players, floor);
        if level == floor {
            Seq::empty()
        } else {
            seq![level] + tiers(players, level, (fuel - 1) as nat)
        }
    }
}

/// What all players together have put towards the parts of the pot up to
/// the one at `level`. The part at the highest bet of a player who has
/// not folded is the last, so it takes all that is left: what players who
/// have folded had bet beyond that level too.
pub open spec fn paid_into(players: Seq<PlayerState>, level: int) -> int {
    if lowest_stake_above(players, level) == level {
        total_staked(players)
    } else {
        paid_up_to(players, level)
    }
}

/// The part of the pot between two levels, and who can win it: what all
/// players have put in between `floor` and `level`, with all that was bet
/// beyond `level` where this is the last part, and the players who have
/// not folded and have bet `level` or more.
pub open spec fn subpot_at(players: Seq<PlayerState>, floor: int, level: int) -> (int, Seq<PlayerRole>) {
    (paid_into(players, level) - paid_up_to(players, floor), contesting(players, level))
}

/// The parts of the pot above `floor`, lowest first: one for each tier.
pub open spec fn subpots_above(players: Seq<PlayerState>, floor: int, fuel: nat) -> Seq<
    (int, Seq<PlayerRole>),
>
    decreases fuel,
{
    if fuel == 0 {
        Seq::empty()
    } else {
        let level = lowest_stake_above(players, floor);
        if level == floor {
            Seq::empty()
        } else {
            seq![subpot_at(players, floor, level)] + subpots_above(
                players,
                level,
                (fuel - 1) as nat,
            )
        }
    }
}

/// The parts of the pot of a hand, lowest first.
pub open spec fn subpots_of(players: Seq<PlayerState>) -> Seq<(int, Seq<PlayerRole>)> {
    subpots_above(players, -1, players.len())
}

/// The chips and the players of each subpot.
pub open spec fn subpot_views(pots: Seq<Subpot<PlayerRole>>) -> Seq<(int, Seq<PlayerRole>)> {
    Seq::new(pots.len(), |i: int| (pots[i].chips as int, pots[i].players@))
}

proof fn lemma_paid_bounds(players: Seq<PlayerState>, floor: int, level: int)
    requires
        forall|i: int| 0 <= i < players.len() ==> (#[trigger] players[i]).total_bet >= 0,
        floor <= level,
    ensures
        0 <= paid_up_to(players, floor) <= paid_up_to(players, level) <= total_staked(players),
    decreases players.len(),
{
    if players.len() > 0 {
        let head = players.drop_last();
        assert forall|i: int| 0 <= i < head.len() implies (#[trigger] head[i]).total_bet >= 0 by {
            assert(head[i] == players[i]);
        }
        lemma_paid_bounds(head, floor, level);
        assert(players.last() == players[players.len() - 1]);
    }
}

proof fn lemma_total_prefix(players: Seq<PlayerState>, k: int)
    requires
        forall|i: int| 0 <= i < players.len() ==> (#[trigger] players[i]).total_bet >= 0,
        0 <= k <= players.len(),
    ensures
        0 <= total_staked(players.take(k)) <= total_staked(players),
    decreases players.len() - k,
{
    if k < players.len() {
        lemma_total_prefix(players, k + 1);
        assert(players.take(k + 1).drop_last() =~= players.take(k));
        assert(players.take(k + 1).last() == players[k]);
        lemma_paid_bounds(players.take(k), 0, 0);
        assert forall|i: int| 0 <= i < players.take(k).len() implies (#[trigger] players.take(
            k,
        )[i]).total_bet >= 0 by {
            assert(players.take(k)[i] == players[i]);
        }
        lemma_paid_bounds(players.take(k), 0, 0);
    } else {
        assert(players.take(k) =~= players);
        lemma_paid_bounds(players, 0, 0);
    }
}

/// The smallest bet above `floor` of a player who has not folded.
fn lowest_stake(players: &Vec<PlayerState>, floor: i64) -> (r: Option<Chips>)
    requires
        -1 <= floor,
    ensures
        r is None ==> lowest_stake_above(players@, floor as int) == floor,
        r matches Some(level) ==> level == lowest_stake_above(players@, floor as int) && level
            > floor,
{
    let mut lowest: Option<Chips> = None;
    let mut i: usize = 0;
    assert(players@.take(0) =~= Seq::<PlayerState>::empty());
    while i < players.len()
        invariant
            i <= players@.len(),
            -1 <= floor,
            lowest is None ==> lowest_stake_above(players@.take(i as int), floor as int) == floor,
            lowest matches Some(level) ==> level == lowest_stake_above(
                players@.take(i as int),
                floor as int,
            ) && level > floor,
        decreases players@.len() - i,
    {
        proof {
            assert(players@.take(i + 1).drop_last() =~= players@.take(i as int));
        }
        let p = &players[i];
        if !p.folded && (p.total_bet as i64) > floor {
            let better = match lowest {
                None => true,
                Some(level) => p.total_bet < level,
            };
            if better {
                lowest = Some(p.total_bet);
            }
        }
        i = i + 1;
    }
    assert(players@.take(players@.len() as int) =~= players@);
    lowest
}

/// What `p` has put in between `floor` and `level`, and beyond `level`
/// too where `last` says that all that is left counts.
fn share_between(p: &PlayerState, floor: i64, level: Chips, last: bool) -> (r: Chips)
    requires
        p.total_bet >= 0,
        -1 <= floor < level,
    ensures
        r == (if last {
            p.total_bet as int
        } else {
            contribution(*p, level as int)
        }) - contribution(*p, floor as int),
        r >= 0,
{
    let upper: Chips = if last || p.total_bet < level {
        p.total_bet
    } else {
        level
    };
    let lower: Chips = if floor <= 0 {
        0
    } else if (p.total_bet as i64) < floor {
        p.total_bet
    } else {
        floor as Chips
    };
    upper - lower
}

/// Splits the pot of a hand into parts that the same players can win.
/// The bets of the players who have not folded mark the levels; each part
/// holds what all players, folded or not, have put in between one level
/// and the next, and can be won by those who have not folded and have bet
/// up to its level. The last part also holds what players who have folded
/// had bet beyond the highest level, so that no chip is left out.
pub fn calc_subpots(state: &HandState) -> (pots: Vec<Subpot<PlayerRole>>)
    requires
        stakes_fit(state.players@),
    ensures
        subpot_views(pots@) == subpots_of(state.players@),
{
    let players = &state.players;
    let ghost ps = players@;
    let n = players.len();
    let mut retval: Vec<Subpot<PlayerRole>> = Vec::new();
    let mut floor: i64 = -1;
    let mut rounds: usize = 0;
    let mut done = false;
    assert(subpot_views(retval@) + subpots_above(ps, -1, n as nat) =~= subpots_of(ps));
    while rounds < n && !done
        invariant
            rounds <= n,
            n == ps.len(),
            ps == players@,
            stakes_fit(ps),
            -1 <= floor <= Chips::MAX,
            done ==> subpots_above(ps, floor as int, (n - rounds) as nat) == Seq::<
                (int, Seq<PlayerRole>),
            >::empty(),
            subpot_views(retval@) + subpots_above(ps, floor as int, (n - rounds) as nat)
                == subpots_of(ps),
        decreases n - rounds + (if done { 0int } else { 1int }),
    {
        match lowest_stake(players, floor) {
            None => {
                done = true;
            },
            Some(level) => {
                let last = lowest_stake(players, level as i64).is_none();
                let mut chips: Chips = 0;
                let mut in_pot: Vec<PlayerRole> = Vec::new();
                let mut i: usize = 0;
                assert(ps.take(0) =~= Seq::<PlayerState>::empty());
                while i < n
                    invariant
                        i <= n,
                        n == ps.len(),
                        ps == players@,
                        stakes_fit(ps),
                        -1 <= floor < level,
                        chips == (if last {
                            total_staked(ps.take(i as int))
                        } else {
                            paid_up_to(ps.take(i as int), level as int)
                        }) - paid_up_to(ps.take(i as int), floor as int),
                        0 <= chips <= total_staked(ps.take(i as int)),
                        in_pot@ == contesting(ps.take(i as int), level as int),
                    decreases n - i,
                {
                    proof {
                        assert(ps.take(i + 1).drop_last() =~= ps.take(i as int));
                        assert(ps.take(i + 1).last() == ps[i as int]);
                        lemma_total_prefix(ps, i + 1);
                        assert(ps[i as int].total_bet >= 0);
                        lemma_paid_bounds(ps.take(i as int), floor as int, level as int);
                    }
                    let p = &players[i];
                    let share = share_between(p, floor, level, last);
                    chips = chips + share;
                    if !p.folded && p.total_bet >= level {
                        in_pot.push(i);
                    }
                    i = i + 1;
                }
                proof {
                    assert(ps.take(n as int) =~= ps);
                }
                let ghost before = retval@;
                retval.push(Subpot { chips, players: in_pot });
                proof {
                    let rest = subpots_above(ps, level as int, (n - rounds - 1) as nat);
                    assert(subpots_above(ps, floor as int, (n - rounds) as nat) =~= seq![
                        subpot_at(ps, floor as int, level as int),
                    ] + rest);
                    assert(subpot_views(retval@) =~= subpot_views(before) + seq![
                        subpot_at(ps, floor as int, level as int),
                    ]);
                    assert(subpot_views(retval@) + rest =~= subpot_views(before) + (seq![
                        subpot_at(ps, floor as int, level as int),
                    ] + rest));
                }
                floor = level as i64;
                rounds = rounds + 1;
            },
        }
    }
    proof {
        assert(subpots_above(ps, floor as int, (n - rounds) as nat) =~= Seq::<
            (int, Seq<PlayerRole>),
        >::empty());
        assert(subpot_views(retval@) + Seq::<(int, Seq<PlayerRole>)>::empty() =~= subpot_views(
            retval@,
        ));
    }
    retval
}

/// The chips that the winner at position `i` of `n` gets of `pot`: an
/// even share, and one chip more for the first winners as long as the
/// remainder lasts.
pub open spec fn cut_of(pot: int, n: int, i: int) -> int {
    pot / n + if i < pot % n {
        1int
    } else {
        0int
    }
}

/// Divides `pot` among `players`: evenly, and what is left over a chip at
/// a time to those who are listed first. Each player comes back as a
/// clone, with their cut.
pub fn split_pot<P: Clone>(players: &[P], pot: Chips) -> (cuts: Vec<(P, Chips)>)
    requires
        0 < players@.len() <= Chips::MAX,
        pot >= 0,
    ensures
        cuts@.len() == players@.len(),
        forall|i: int|
            0 <= i < cuts@.len() ==> cloned::<P>(players@[i], (#[trigger] cuts@[i]).0) && cuts@[i].1
                == cut_of(pot as int, players@.len() as int, i),
{
    let num_players = players.len() as Chips;
    let even = pot / num_players;
    let mut left = pot % num_players;
    let mut retval: Vec<(P, Chips)> = Vec::new();
    let mut i: usize = 0;
    proof {
        assert(even * num_players + left == pot) by (nonlinear_arith)
            requires
                even == pot / num_players,
                left == pot % num_players,
                num_players > 0,
        ;
        assert(even <= pot) by (nonlinear_arith)
            requires
                even == pot / num_players,
                num_players > 0,
                pot >= 0,
        ;
        assert(left > 0 ==> even < pot) by (nonlinear_arith)
            requires
                even * num_players + left == pot,
                num_players > 0,
                even >= 0,
        ;
    }
    while i < players.len()
        invariant
            i <= players@.len(),
            num_players == players@.len(),
            0 < num_players,
            0 <= pot,
            even == pot / num_players,
            0 <= even <= pot,
            pot % num_players > 0 ==> even < pot,
            0 <= left,
            left == (if i < pot % num_players {
                pot % num_players - i
            } else {
                0
            }),
            retval@.len() == i,
            forall|k: int|
                0 <= k < i ==> cloned::<P>(players@[k], (#[trigger] retval@[k]).0) && retval@[k].1
                    == cut_of(pot as int, num_players as int, k),
        decreases players@.len() - i,
    {
        let mut cut = even;
        if left > 0 {
            cut = cut + 1;
            left = left - 1;
        }
        let ghost before = retval@;
        let player = players[i].clone();
        retval.push((player, cut));
        proof {
            assert forall|k: int| 0 <= k < i + 1 implies cloned::<P>(
                players@[k],
                (#[trigger] retval@[k]).0,
            ) && retval@[k].1 == cut_of(pot as int, num_players as int, k) by {
                if k < i {
                    assert(retval@[k] == before[k]);
                }
            }
        }
        i = i + 1;
    }
    retval
}


/// The chips of all the parts together.
pub open spec fn sum_chips(pots: Seq<(int, Seq<PlayerRole>)>) -> int
    decreases pots.len(),
{
    if pots.len() == 0 {
        0
    } else {
        pots[0].0 + sum_chips(pots.drop_first())
    }
}

/// The highest of the tiers above `floor`, and `floor` if there is none.
pub open spec fn top_tier(players: Seq<PlayerState>, floor: int, fuel: nat) -> int
    decreases fuel,
{
    if fuel == 0 {
        floor
    } else {
        let level = lowest_stake_above(players, floor);
        if level == floor {
            floor
        } else {
            top_tier(players, level, (fuel - 1) as nat)
        }
    }
}

/// How many players have not folded and have bet more than `floor`.
pub open spec fn count_above(players: Seq<PlayerState>, floor: int) -> nat
    decreases players.len(),
{
    if players.len() == 0 {
        0
    } else {
        count_above(players.drop_last(), floor) + if !players.last().folded
            && players.last().total_bet > floor {
            1nat
        } else {
            0nat
        }
    }
}

/// What `lowest_stake_above` finds: a bet of a player who has not folded,
/// and no such bet lies between it and the floor.
pub proof fn lemma_lowest_stake(players: Seq<PlayerState>, floor: int)
    ensures
        lowest_stake_above(players, floor) >= floor,
        lowest_stake_above(players, floor) != floor ==> exists|i: int|
            0 <= i < players.len() && !(#[trigger] players[i]).folded && players[i].total_bet
                == lowest_stake_above(players, floor),
        forall|i: int|
            0 <= i < players.len() && !(#[trigger] players[i]).folded && players[i].total_bet > floor
                ==> floor < lowest_stake_above(players, floor) <= players[i].total_bet,
    decreases players.len(),
{
    if players.len() > 0 {
        let head = players.drop_last();
        lemma_lowest_stake(head, floor);
        let level = lowest_stake_above(players, floor);
        let rest = lowest_stake_above(head, floor);
        if level != floor {
            if level == rest {
                let i = choose|i: int|
                    0 <= i < head.len() && !(#[trigger] head[i]).folded && head[i].total_bet == rest;
                assert(players[i] == head[i]);
            } else {
                assert(players[players.len() - 1].total_bet == level);
            }
        }
        assert forall|i: int|
            0 <= i < players.len() && !(#[trigger] players[i]).folded && players[i].total_bet
                > floor implies floor < level <= players[i].total_bet by {
            if i < head.len() {
                assert(players[i] == head[i]);
            }
        }
    }
}

proof fn lemma_count_above(players: Seq<PlayerState>, floor: int, level: int)
    requires
        floor <= level,
    ensures
        count_above(players, level) <= count_above(players, floor) <= players.len(),
        (exists|i: int|
            0 <= i < players.len() && !(#[trigger] players[i]).folded && floor < players[i].total_bet
                <= level) ==> count_above(players, level) < count_above(players, floor),
    decreases players.len(),
{
    if players.len() > 0 {
        let head = players.drop_last();
        lemma_count_above(head, floor, level);
        if exists|i: int|
            0 <= i < players.len() && !(#[trigger] players[i]).folded && floor < players[i].total_bet
                <= level {
            let i = choose|i: int|
                0 <= i < players.len() && !(#[trigger] players[i]).folded && floor
                    < players[i].total_bet <= level;
            if i < head.len() {
                assert(head[i] == players[i]);
            }
        }
    }
}

/// With as much fuel as there are players, the tiers reach the highest
/// bet of a player who has not folded.
proof fn lemma_top_tier(players: Seq<PlayerState>, floor: int, fuel: nat)
    requires
        fuel >= count_above(players, floor),
    ensures
        top_tier(players, floor, fuel) >= floor,
        forall|i: int|
            0 <= i < players.len() && !(#[trigger] players[i]).folded ==> players[i].total_bet
                <= top_tier(players, floor, fuel) || players[i].total_bet <= floor,
    decreases fuel,
{
    lemma_lowest_stake(players, floor);
    let level = lowest_stake_above(players, floor);
    if level != floor {
        lemma_count_above(players, floor, level);
        if fuel > 0 {
            lemma_top_tier(players, level, (fuel - 1) as nat);
        }
    }
}

proof fn lemma_sum_telescopes(players: Seq<PlayerState>, floor: int, fuel: nat)
    ensures
        subpots_above(players, floor, fuel).len() == 0 ==> sum_chips(
            subpots_above(players, floor, fuel),
        ) == 0 && top_tier(players, floor, fuel) == floor,
        subpots_above(players, floor, fuel).len() > 0 ==> sum_chips(
            subpots_above(players, floor, fuel),
        ) == paid_into(players, top_tier(players, floor, fuel)) - paid_up_to(players, floor),
    decreases fuel,
{
    if fuel > 0 {
        let level = lowest_stake_above(players, floor);
        if level != floor {
            lemma_sum_telescopes(players, level, (fuel - 1) as nat);
            let rest = subpots_above(players, level, (fuel - 1) as nat);
            let all = subpots_above(players, floor, fuel);
            assert(all =~= seq![subpot_at(players, floor, level)] + rest);
            assert(all.drop_first() =~= rest);
        }
    }
}

proof fn lemma_paid_in_full(players: Seq<PlayerState>, level: int)
    requires
        forall|i: int| 0 <= i < players.len() ==> 0 <= (#[trigger] players[i]).total_bet <= level,
    ensures
        paid_up_to(players, level) == total_staked(players),
        paid_up_to(players, -1) == 0,
    decreases players.len(),
{
    if players.len() > 0 {
        let head = players.drop_last();
        assert forall|i: int| 0 <= i < head.len() implies 0 <= (#[trigger] head[i]).total_bet
            <= level by {
            assert(head[i] == players[i]);
        }
        lemma_paid_in_full(head, level);
        assert(players.last() == players[players.len() - 1]);
    }
}

/// No chip is lost: as long as a player is still in the hand, the parts
/// of the pot add up to what all players have bet.
pub proof fn lemma_subpots_conserve(players: Seq<PlayerState>)
    requires
        forall|i: int| 0 <= i < players.len() ==> (#[trigger] players[i]).total_bet >= 0,
        exists|j: int| 0 <= j < players.len() && !(#[trigger] players[j]).folded,
    ensures
        sum_chips(subpots_of(players)) == total_staked(players),
{
    let n = players.len();
    let j = choose|j: int| 0 <= j < players.len() && !(#[trigger] players[j]).folded;
    lemma_count_above(players, -1, -1);
    lemma_top_tier(players, -1, n);
    lemma_sum_telescopes(players, -1, n);
    lemma_lowest_stake(players, -1);
    let top = top_tier(players, -1, n);
    assert(players[j].total_bet > -1);
    assert(lowest_stake_above(players, -1) != -1);
    assert(subpots_of(players).len() > 0);
    lemma_lowest_stake(players, top);
    lemma_nothing_paid(players);
}

/// Who can win a part of the pot: the players who have not folded and
/// have bet up to its level, lowest role first.
pub proof fn lemma_contesting(players: Seq<PlayerState>, level: int)
    requires
        players.len() <= usize::MAX,
    ensures
        forall|role: PlayerRole|
            contesting(players, level).contains(role) <==> (role < players.len()
                && !players[role as int].folded && players[role as int].total_bet >= level),
        forall|a: int, b: int|
            0 <= a < b < contesting(players, level).len() ==> contesting(players, level)[a]
                < contesting(players, level)[b],
        forall|a: int|
            0 <= a < contesting(players, level).len() ==> (#[trigger] contesting(players, level)[a])
                < players.len(),
    decreases players.len(),
{
    if players.len() > 0 {
        let head = players.drop_last();
        lemma_contesting(head, level);
        let all = contesting(players, level);
        let rest = contesting(head, level);
        let last = (players.len() - 1) as usize;
        let p = players.last();
        assert(p == players[last as int]);
        let pushed = !p.folded && p.total_bet >= level;
        assert(all == if pushed {
            rest.push(last)
        } else {
            rest
        });
        assert forall|a: int| 0 <= a < all.len() implies (#[trigger] all[a]) < players.len() by {
            if a < rest.len() {
                assert(rest[a] < head.len());
                assert(all[a] == rest[a]);
            }
        }
        assert forall|a: int, b: int| 0 <= a < b < all.len() implies all[a] < all[b] by {
            assert(rest[a] < head.len());
            assert(all[a] == rest[a]);
            if b < rest.len() {
                assert(all[b] == rest[b]);
            }
        }
        assert forall|role: PlayerRole| all.contains(role) <==> (role < players.len()
            && !players[role as int].folded && players[role as int].total_bet >= level) by {
            if role < head.len() {
                assert(head[role as int] == players[role as int]);
            }
            if all.contains(role) {
                let k = choose|k: int| 0 <= k < all.len() && all[k] == role;
                if k < rest.len() {
                    assert(rest[k] == role);
                    assert(rest.contains(role));
                } else {
                    assert(role == last);
                }
            }
            if role < players.len() && !players[role as int].folded && players[role as int].total_bet
                >= level {
                if role == last {
                    assert(pushed);
                    assert(all[all.len() - 1] == role);
                } else {
                    assert(rest.contains(role));
                    let k = choose|k: int| 0 <= k < rest.len() && rest[k] == role;
                    assert(all[k] == role);
                }
            }
        }
    }
}

/// Each player who is still in the hand has a tier of their own: their
/// bet is one of the levels at which the pot is split.
pub proof fn lemma_own_tier(players: Seq<PlayerState>, role: int)
    requires
        0 <= role < players.len(),
        !players[role].folded,
        players[role].total_bet >= 0,
    ensures
        tiers(players, -1, players.len()).contains(players[role].total_bet as int),
{
    lemma_count_above(players, -1, -1);
    lemma_tier_found(players, -1, players.len(), role);
}

proof fn lemma_tier_found(players: Seq<PlayerState>, floor: int, fuel: nat, role: int)
    requires
        0 <= role < players.len(),
        !players[role].folded,
        players[role].total_bet > floor,
        fuel >= count_above(players, floor),
    ensures
        tiers(players, floor, fuel).contains(players[role].total_bet as int),
    decreases fuel,
{
    lemma_lowest_stake(players, floor);
    let level = lowest_stake_above(players, floor);
    lemma_count_above(players, floor, level);
    assert(floor < level <= players[role].total_bet);
    assert(fuel > 0);
    let all = tiers(players, floor, fuel);
    let rest = tiers(players, level, (fuel - 1) as nat);
    assert(all =~= seq![level] + rest);
    if level == players[role].total_bet {
        assert(all[0] == level);
    } else {
        lemma_tier_found(players, level, (fuel - 1) as nat, role);
        let k = choose|k: int| 0 <= k < rest.len() && rest[k] == players[role].total_bet as int;
        assert(all[k + 1] == rest[k]);
    }
}


/// What the first `k` winners of a pot get together.
pub open spec fn spent(pot: int, n: int, k: int) -> int
    decreases k,
{
    if k <= 0 {
        0
    } else {
        spent(pot, n, k - 1) + cut_of(pot, n, k - 1)
    }
}

/// What `who` gets of a pot as one of the first `k` of its winners.
pub open spec fn share_in(winners: Seq<PlayerRole>, pot: int, who: PlayerRole, k: int) -> int
    decreases k,
{
    if k <= 0 {
        0
    } else {
        share_in(winners, pot, who, k - 1) + if winners[k - 1] == who {
            cut_of(pot, winners.len() as int, k - 1)
        } else {
            0
        }
    }
}

/// What `who` wins of the first `k` parts of the pot.
pub open spec fn total_won(
    pots: Seq<(Subpot<PlayerRole>, Vec<PlayerRole>)>,
    who: PlayerRole,
    k: int,
) -> int
    decreases k,
{
    if k <= 0 {
        0
    } else {
        total_won(pots, who, k - 1) + share_in(
            pots[k - 1].1@,
            pots[k - 1].0.chips as int,
            who,
            pots[k - 1].1@.len() as int,
        )
    }
}

/// `who` is among the winners of one of the first `k` parts of the pot.
pub open spec fn wins_in(
    pots: Seq<(Subpot<PlayerRole>, Vec<PlayerRole>)>,
    who: PlayerRole,
    k: int,
) -> bool
    decreases k,
{
    k > 0 && (wins_in(pots, who, k - 1) || pots[k - 1].1@.contains(who))
}

/// The chips of the first `k` parts of the pot together.
pub open spec fn pot_sum(pots: Seq<(Subpot<PlayerRole>, Vec<PlayerRole>)>, k: int) -> int
    decreases k,
{
    if k <= 0 {
        0
    } else {
        pot_sum(pots, k - 1) + pots[k - 1].0.chips
    }
}

/// Each part of the pot has a winner and holds no less than nothing, and
/// the parts together fit in `Chips`.
pub open spec fn winners_fit(pots: Seq<(Subpot<PlayerRole>, Vec<PlayerRole>)>) -> bool {
    &&& forall|j: int|
        0 <= j < pots.len() ==> 0 < (#[trigger] pots[j]).1@.len() <= Chips::MAX && pots[j].0.chips
            >= 0
    &&& pot_sum(pots, pots.len() as int) <= Chips::MAX
}

/// The winners of a pot get the whole pot among them, and no more.
pub proof fn lemma_spent(pot: int, n: int, k: int)
    requires
        0 <= pot,
        0 < n,
        0 <= k <= n,
    ensures
        0 <= spent(pot, n, k) <= pot,
        spent(pot, n, n) == pot,
{
    let even = pot / n;
    let rem = pot % n;
    assert(n * even + rem == pot && 0 <= rem < n && 0 <= even) by (nonlinear_arith)
        requires
            even == pot / n,
            rem == pot % n,
            0 < n,
            0 <= pot,
    ;
    lemma_spent_closed(pot, n, k);
    lemma_spent_closed(pot, n, n);
    assert(0 <= k * even <= n * even) by (nonlinear_arith)
        requires
            0 <= k <= n,
            0 <= even,
    ;
}

proof fn lemma_spent_closed(pot: int, n: int, k: int)
    requires
        0 <= pot,
        0 < n,
        0 <= k <= n,
    ensures
        spent(pot, n, k) == k * (pot / n) + if k < pot % n {
            k
        } else {
            pot % n
        },
    decreases k,
{
    let even = pot / n;
    let rem = pot % n;
    assert(0 <= rem < n) by (nonlinear_arith)
        requires
            rem == pot % n,
            0 < n,
            0 <= pot,
    ;
    if k > 0 {
        lemma_spent_closed(pot, n, k - 1);
        assert(k * even == (k - 1) * even + even) by (nonlinear_arith);
    } else {
        assert(k * even == 0) by (nonlinear_arith)
            requires
                k == 0,
        ;
    }
}

proof fn lemma_share_in(winners: Seq<PlayerRole>, pot: int, who: PlayerRole, k: int)
    requires
        0 <= pot,
        0 <= k <= winners.len(),
        0 < winners.len(),
    ensures
        0 <= share_in(winners, pot, who, k) <= spent(pot, winners.len() as int, k),
    decreases k,
{
    if k > 0 {
        lemma_share_in(winners, pot, who, k - 1);
        let n = winners.len() as int;
        assert(pot / n >= 0) by (nonlinear_arith)
            requires
                0 <= pot,
                0 < n,
        ;
    }
}

proof fn lemma_total_won(pots: Seq<(Subpot<PlayerRole>, Vec<PlayerRole>)>, who: PlayerRole, k: int)
    requires
        forall|j: int|
            0 <= j < pots.len() ==> 0 < (#[trigger] pots[j]).1@.len() && pots[j].0.chips >= 0,
        0 <= k <= pots.len(),
    ensures
        0 <= total_won(pots, who, k) <= pot_sum(pots, k) <= pot_sum(pots, pots.len() as int),
    decreases pots.len() - k,
{
    lemma_total_won_upto(pots, who, k);
    if k < pots.len() {
        lemma_total_won(pots, who, k + 1);
        assert(pots[k].0.chips >= 0);
    }
}

proof fn lemma_total_won_upto(
    pots: Seq<(Subpot<PlayerRole>, Vec<PlayerRole>)>,
    who: PlayerRole,
    k: int,
)
    requires
        forall|j: int|
            0 <= j < pots.len() ==> 0 < (#[trigger] pots[j]).1@.len() && pots[j].0.chips >= 0,
        0 <= k <= pots.len(),
    ensures
        0 <= total_won(pots, who, k) <= pot_sum(pots, k),
    decreases k,
{
    if k > 0 {
        lemma_total_won_upto(pots, who, k - 1);
        let w = pots[k - 1].1@;
        let pot = pots[k - 1].0.chips as int;
        lemma_share_in(w, pot, who, w.len() as int);
        lemma_spent(pot, w.len() as int, w.len() as int);
    }
}

impl Winners<PlayerRole> {
    /// What each winner gets in all: their cut of every part of the pot
    /// that they win.
    pub fn totals(&self) -> (r: HashMap<PlayerRole, Chips>)
        requires
            winners_fit(self.winners_by_pot@),
        ensures
            forall|who: PlayerRole| #[trigger]
                r@.contains_key(who) <==> wins_in(
                    self.winners_by_pot@,
                    who,
                    self.winners_by_pot@.len() as int,
                ),
            forall|who: PlayerRole| #[trigger]
                r@.contains_key(who) ==> r@[who] == total_won(
                    self.winners_by_pot@,
                    who,
                    self.winners_by_pot@.len() as int,
                ),
    {
        broadcast use vstd::std_specs::hash::group_hash_axioms;

        let ghost pots = self.winners_by_pot@;
        let mut retval: HashMap<PlayerRole, Chips> = HashMap::new();
        let mut j: usize = 0;
        while j < self.winners_by_pot.len()
            invariant
                j <= pots.len(),
                pots == self.winners_by_pot@,
                winners_fit(pots),
                forall|who: PlayerRole| #[trigger]
                    retval@.contains_key(who) <==> wins_in(pots, who, j as int),
                forall|who: PlayerRole| #[trigger]
                    retval@.contains_key(who) ==> retval@[who] == total_won(pots, who, j as int),
            decreases pots.len() - j,
        {
            let pot = self.winners_by_pot[j].0.chips;
            let winners = &self.winners_by_pot[j].1;
            let ghost w = winners@;
            let ghost n = w.len() as int;
            let cuts = split_pot(winners.as_slice(), pot);
            let mut i: usize = 0;
            assert(w.take(0) =~= Seq::<PlayerRole>::empty());
            while i < cuts.len()
                invariant
                    i <= cuts@.len(),
                    cuts@.len() == w.len(),
                    n == w.len(),
                    0 < n,
                    j < pots.len(),
                    pots == self.winners_by_pot@,
                    w == pots[j as int].1@,
                    pot == pots[j as int].0.chips,
                    pot >= 0,
                    winners_fit(pots),
                    forall|k: int|
                        0 <= k < cuts@.len() ==> (#[trigger] cuts@[k]).0 == w[k] && cuts@[k].1
                            == cut_of(pot as int, n, k),
                    forall|who: PlayerRole| #[trigger]
                        retval@.contains_key(who) <==> (wins_in(pots, who, j as int) || w.take(
                            i as int,
                        ).contains(who)),
                    forall|who: PlayerRole| #[trigger]
                        retval@.contains_key(who) ==> retval@[who] == total_won(pots, who, j as int)
                            + share_in(w, pot as int, who, i as int),
                decreases cuts@.len() - i,
            {
                let (player, cut) = cuts[i];
                let ghost before = retval@;
                proof {
                    lemma_total_won(pots, player, j as int);
                    lemma_total_won(pots, player, j + 1);
                    lemma_share_in(w, pot as int, player, i as int);
                    lemma_share_in(w, pot as int, player, i + 1);
                    lemma_spent(pot as int, n, i + 1);
                    lemma_spent(pot as int, n, i as int);
                    assert(w.take(i + 1) =~= w.take(i as int).push(player));
                }
                let so_far: Chips = match retval.get(&player) {
                    Some(v) => *v,
                    None => 0,
                };
                proof {
                    if !before.contains_key(player) {
                        lemma_no_winnings(pots, player, j as int);
                        lemma_no_share(w, pot as int, player, i as int);
                    }
                }
                retval.insert(player, so_far + cut);
                proof {
                    let shorter = w.take(i as int);
                    let longer = w.take(i + 1);
                    assert forall|who: PlayerRole| #[trigger]
                        retval@.contains_key(who) <==> (wins_in(pots, who, j as int)
                            || longer.contains(who)) by {
                        if longer.contains(who) && who != player {
                            let k = choose|k: int| 0 <= k < longer.len() && longer[k] == who;
                            assert(shorter[k] == who);
                        }
                        if shorter.contains(who) {
                            let k = choose|k: int| 0 <= k < shorter.len() && shorter[k] == who;
                            assert(longer[k] == who);
                        }
                        assert(longer[i as int] == player);
                    }
                }
                i = i + 1;
            }
            proof {
                assert(w.take(n) =~= w);
            }
            j = j + 1;
        }
        retval
    }
}

/// A player who is among no winners wins nothing.
pub proof fn lemma_no_winnings(pots: Seq<(Subpot<PlayerRole>, Vec<PlayerRole>)>, who: PlayerRole, k: int)
    requires
        !wins_in(pots, who, k),
        0 <= k <= pots.len(),
    ensures
        total_won(pots, who, k) == 0,
    decreases k,
{
    if k > 0 {
        lemma_no_winnings(pots, who, k - 1);
        let w = pots[k - 1].1@;
        assert(w.take(w.len() as int) =~= w);
        lemma_no_share(w, pots[k - 1].0.chips as int, who, w.len() as int);
    }
}

proof fn lemma_no_share(winners: Seq<PlayerRole>, pot: int, who: PlayerRole, k: int)
    requires
        !winners.take(k).contains(who),
        0 <= k <= winners.len(),
    ensures
        share_in(winners, pot, who, k) == 0,
    decreases k,
{
    if k > 0 {
        let longer = winners.take(k);
        let shorter = winners.take(k - 1);
        assert(longer[k - 1] == winners[k - 1]);
        assert forall|m: int| 0 <= m < k - 1 implies (#[trigger] shorter[m]) != who by {
            assert(longer[m] == winners[m]);
        }
        lemma_no_share(winners, pot, who, k - 1);
    }
}

impl Subpot<PlayerRole> {
    /// The same part of the pot, its players by name.
    pub fn convert(&self, mapping: &Vec<PlayerId>) -> (r: Subpot<PlayerId>)
        requires
            forall|i: int| 0 <= i < self.players@.len() ==> (#[trigger] self.players@[i]) < mapping@.len(),
        ensures
            r.chips == self.chips,
            r.players@.len() == self.players@.len(),
            forall|i: int|
                0 <= i < r.players@.len() ==> (#[trigger] r.players@[i]) == mapping@[self.players@[i] as int],
    {
        Subpot { chips: self.chips, players: names_of(&self.players, mapping) }
    }
}

/// The names of the players `roles`.
pub fn names_of(roles: &Vec<PlayerRole>, mapping: &Vec<PlayerId>) -> (names: Vec<PlayerId>)
    requires
        forall|i: int| 0 <= i < roles@.len() ==> (#[trigger] roles@[i]) < mapping@.len(),
    ensures
        names@.len() == roles@.len(),
        forall|i: int| 0 <= i < names@.len() ==> (#[trigger] names@[i]) == mapping@[roles@[i] as int],
{
    let mut names: Vec<PlayerId> = Vec::new();
    let mut i: usize = 0;
    while i < roles.len()
        invariant
            i <= roles@.len(),
            forall|k: int| 0 <= k < roles@.len() ==> (#[trigger] roles@[k]) < mapping@.len(),
            names@.len() == i,
            forall|k: int| 0 <= k < i ==> (#[trigger] names@[k]) == mapping@[roles@[k] as int],
        decreases roles@.len() - i,
    {
        let role = roles[i];
        names.push(mapping[role].clone());
        i = i + 1;
    }
    names
}

/// `new` is `old` with each player by the name that `mapping` has for
/// their role.
pub open spec fn renames(old: Winners<PlayerRole>, mapping: Seq<PlayerId>, new: Winners<PlayerId>) -> bool {
    &&& new.winners_by_pot@.len() == old.winners_by_pot@.len()
    &&& forall|j: int|
        0 <= j < new.winners_by_pot@.len() ==> {
            let n = #[trigger] new.winners_by_pot@[j];
            let o = old.winners_by_pot@[j];
            &&& n.0.chips == o.0.chips
            &&& n.0.players@.len() == o.0.players@.len()
            &&& forall|i: int|
                0 <= i < n.0.players@.len() ==> (#[trigger] n.0.players@[i])
                    == mapping[o.0.players@[i] as int]
            &&& n.1@.len() == o.1@.len()
            &&& forall|i: int| 0 <= i < n.1@.len() ==> (#[trigger] n.1@[i]) == mapping[o.1@[i] as int]
        }
}

/// Every winner and every player of a pot has a name in `mapping`.
pub open spec fn all_named(w: Winners<PlayerRole>, mapping: Seq<PlayerId>) -> bool {
    &&& forall|j: int, i: int|
        0 <= j < w.winners_by_pot@.len() && 0 <= i < w.winners_by_pot@[j].0.players@.len() ==> (
        #[trigger] w.winners_by_pot@[j].0.players@[i]) < mapping.len()
    &&& forall|j: int, i: int|
        0 <= j < w.winners_by_pot@.len() && 0 <= i < w.winners_by_pot@[j].1@.len() ==> (
        #[trigger] w.winners_by_pot@[j].1@[i]) < mapping.len()
}

impl Winners<PlayerRole> {
    /// The same winners, by name.
    pub fn convert(&self, mapping: &Vec<PlayerId>) -> (r: Winners<PlayerId>)
        requires
            all_named(*self, mapping@),
        ensures
            renames(*self, mapping@, r),
    {
        let mut winners_by_pot: Vec<(Subpot<PlayerId>, Vec<PlayerId>)> = Vec::new();
        let mut j: usize = 0;
        while j < self.winners_by_pot.len()
            invariant
                j <= self.winners_by_pot@.len(),
                forall|j: int, i: int|
                    0 <= j < self.winners_by_pot@.len() && 0 <= i
                        < self.winners_by_pot@[j].0.players@.len()
                        ==> (#[trigger] self.winners_by_pot@[j].0.players@[i]) < mapping@.len(),
                forall|j: int, i: int|
                    0 <= j < self.winners_by_pot@.len() && 0 <= i < self.winners_by_pot@[j].1@.len()
                        ==> (#[trigger] self.winners_by_pot@[j].1@[i]) < mapping@.len(),
                winners_by_pot@.len() == j,
                forall|k: int|
                    0 <= k < j ==> {
                        let new = #[trigger] winners_by_pot@[k];
                        let old = self.winners_by_pot@[k];
                        &&& new.0.chips == old.0.chips
                        &&& new.0.players@.len() == old.0.players@.len()
                        &&& forall|i: int|
                            0 <= i < new.0.players@.len() ==> (#[trigger] new.0.players@[i])
                                == mapping@[old.0.players@[i] as int]
                        &&& new.1@.len() == old.1@.len()
                        &&& forall|i: int|
                            0 <= i < new.1@.len() ==> (#[trigger] new.1@[i])
                                == mapping@[old.1@[i] as int]
                    },
            decreases self.winners_by_pot@.len() - j,
        {
            let entry = &self.winners_by_pot[j];
            proof {
                assert forall|i: int| 0 <= i < entry.0.players@.len() implies (
                #[trigger] entry.0.players@[i]) < mapping@.len() by {
                    assert(self.winners_by_pot@[j as int].0.players@[i] < mapping@.len());
                }
                assert forall|i: int| 0 <= i < entry.1@.len() implies (#[trigger] entry.1@[i])
                    < mapping@.len() by {
                    assert(self.winners_by_pot@[j as int].1@[i] < mapping@.len());
                }
            }
            let pot = entry.0.convert(mapping);
            let names = names_of(&entry.1, mapping);
            winners_by_pot.push((pot, names));
            j = j + 1;
        }
        Winners { winners_by_pot }
    }
}


/// The cards of a hand, whatever side is up.
pub open spec fn hand_cards(hand: Seq<CardState>) -> Seq<Card> {
    Seq::new(hand.len(), |i: int| hand[i].card)
}

/// The player holds cards that can be shown: a hand that is not too
/// large for a tuple, of cards that are cards, and that makes something
/// together with the community.
pub open spec fn can_show(player: PlayerState, community: Seq<Card>, use_from_hand: nat) -> bool {
    &&& player.hand@.len() <= CARD_TUPLE_CAPACITY
    &&& forall|i: int| 0 <= i < player.hand@.len() ==> (#[trigger] player.hand@[i]).card.valid()
    &&& 0 < cards_in_hand(player.hand@.len(), use_from_hand) + community.len()
        <= CARD_TUPLE_CAPACITY
}

/// The hand can be settled: the pot fits in `Chips`, and every player who
/// is still in can show their cards.
pub open spec fn showdown_ready(state: HandState, variant: PokerVariant) -> bool {
    &&& stakes_fit(state.players@)
    &&& state.players@.len() <= Chips::MAX
    &&& forall|i: int|
        0 <= i < state.players@.len() && !(#[trigger] state.players@[i]).folded ==> can_show(
            state.players@[i],
            state.community_cards@,
            variant.use_from_hand as nat,
        )
}

/// How many cards make a hand at the showdown.
pub const SHOWDOWN_HAND_SIZE: usize = 5;

/// The strength of the best hand that `player` can show.
pub open spec fn showdown_key(
    player: PlayerState,
    community: Seq<Card>,
    use_from_hand: nat,
    rules: Seq<SpecialCard>,
) -> StrengthKey {
    choose|k: StrengthKey|
        is_best_using(
            use_from_hand,
            hand_cards(player.hand@),
            community,
            SHOWDOWN_HAND_SIZE as nat,
            rules,
            k,
        )
}

/// The strength of the best hand of each player, by role.
pub open spec fn showdown_keys(state: HandState, variant: PokerVariant, rules: Seq<SpecialCard>) -> Seq<
    StrengthKey,
> {
    Seq::new(
        state.players@.len(),
        |i: int|
            showdown_key(
                state.players@[i],
                state.community_cards@,
                variant.use_from_hand as nat,
                rules,
            ),
    )
}

/// None of the players `roles` has a stronger hand than `r`.
pub open spec fn is_top(roles: Seq<PlayerRole>, keys: Seq<StrengthKey>, r: PlayerRole) -> bool {
    forall|i: int|
        0 <= i < roles.len() ==> key_order(keys[(#[trigger] roles[i]) as int], keys[r as int]) <= 0
}

/// Those of the first `k` of `roles` whose hand none of `roles` beats, in
/// the order of `roles`.
pub open spec fn top_of(roles: Seq<PlayerRole>, keys: Seq<StrengthKey>, k: int) -> Seq<PlayerRole>
    decreases k,
{
    if k <= 0 {
        Seq::empty()
    } else {
        let rest = top_of(roles, keys, k - 1);
        if is_top(roles, keys, roles[k - 1]) {
            rest.push(roles[k - 1])
        } else {
            rest
        }
    }
}

/// The chips of the first `k` parts together.
pub open spec fn chips_before(pots: Seq<(int, Seq<PlayerRole>)>, k: int) -> int
    decreases k,
{
    if k <= 0 {
        0
    } else {
        chips_before(pots, k - 1) + pots[k - 1].0
    }
}

proof fn lemma_chips_before_shift(first: (int, Seq<PlayerRole>), rest: Seq<(int, Seq<PlayerRole>)>, k: int)
    requires
        0 <= k <= rest.len(),
    ensures
        chips_before(seq![first] + rest, k + 1) == first.0 + chips_before(rest, k),
    decreases k,
{
    let all = seq![first] + rest;
    if k > 0 {
        lemma_chips_before_shift(first, rest, k - 1);
        assert(all[k] == rest[k - 1]);
    } else {
        assert(all[0] == first);
        assert(chips_before(all, 0) == 0);
    }
}

/// What is known of each part of the pot: it holds no less than nothing,
/// some player can win it, those who can are players who have not folded,
/// and the parts together hold no more than was bet.
pub proof fn lemma_subpots(players: Seq<PlayerState>, floor: int, fuel: nat, j: int)
    requires
        forall|i: int| 0 <= i < players.len() ==> (#[trigger] players[i]).total_bet >= 0,
        players.len() <= usize::MAX,
        -1 <= floor,
        0 <= j < subpots_above(players, floor, fuel).len(),
    ensures
        subpots_above(players, floor, fuel)[j].0 >= 0,
        subpots_above(players, floor, fuel)[j].1.len() > 0,
        subpots_above(players, floor, fuel)[j].1.len() <= players.len(),
        forall|a: int|
            0 <= a < subpots_above(players, floor, fuel)[j].1.len() ==> {
                let role = #[trigger] subpots_above(players, floor, fuel)[j].1[a];
                role < players.len() && !players[role as int].folded
            },
        0 <= chips_before(subpots_above(players, floor, fuel), j + 1) <= total_staked(players)
            - paid_up_to(players, floor),
    decreases fuel,
{
    let all = subpots_above(players, floor, fuel);
    let level = lowest_stake_above(players, floor);
    let rest = subpots_above(players, level, (fuel - 1) as nat);
    assert(all =~= seq![subpot_at(players, floor, level)] + rest);
    lemma_lowest_stake(players, floor);
    lemma_paid_bounds(players, floor, level);
    if j == 0 {
        lemma_contesting(players, level);
        let roles = contesting(players, level);
        let i = choose|i: int|
            0 <= i < players.len() && !(#[trigger] players[i]).folded && players[i].total_bet
                == level;
        assert(roles.contains(i as usize));
        lemma_contesting_len(players, level);
        lemma_chips_before_shift(subpot_at(players, floor, level), rest, 0);
        assert forall|a: int| 0 <= a < roles.len() implies {
            let role = #[trigger] roles[a];
            role < players.len() && !players[role as int].folded
        } by {
            assert(roles.contains(roles[a]));
        }
    } else {
        lemma_subpots(players, level, (fuel - 1) as nat, j - 1);
        assert(all[j] == rest[j - 1]);
        lemma_chips_before_shift(subpot_at(players, floor, level), rest, j);
    }
}

proof fn lemma_contesting_len(players: Seq<PlayerState>, level: int)
    ensures
        contesting(players, level).len() <= players.len(),
    decreases players.len(),
{
    if players.len() > 0 {
        lemma_contesting_len(players.drop_last(), level);
    }
}

/// Cards make one best hand only, whichever of them are used.
pub proof fn lemma_best_using_unique(
    use_from_hand: nat,
    hand: Seq<Card>,
    community: Seq<Card>,
    hand_size: nat,
    rules: Seq<SpecialCard>,
    a: StrengthKey,
    b: StrengthKey,
)
    requires
        is_best_using(use_from_hand, hand, community, hand_size, rules, a),
        is_best_using(use_from_hand, hand, community, hand_size, rules, b),
    ensures
        a == b,
{
    let p = cards_in_hand(hand.len(), use_from_hand);
    let sa = choose|sel: Seq<int>|
        sel.len() == p && #[trigger] crate::comb::valid_selection(hand.len() as int, false, sel)
            && is_best_hand(crate::comb::pick(hand, sel), community, hand_size, rules, a);
    let sb = choose|sel: Seq<int>|
        sel.len() == p && #[trigger] crate::comb::valid_selection(hand.len() as int, false, sel)
            && is_best_hand(crate::comb::pick(hand, sel), community, hand_size, rules, b);
    assert(key_order(a, b) <= 0);
    assert(key_order(b, a) <= 0);
    lemma_key_order_total(a, b, a);
}

/// The cards of a hand as a tuple.
fn cards_of(hand: &Vec<CardState>) -> (cards: CardTuple)
    requires
        hand@.len() <= CARD_TUPLE_CAPACITY,
        forall|i: int| 0 <= i < hand@.len() ==> (#[trigger] hand@[i]).card.valid(),
    ensures
        cards@ == hand_cards(hand@),
{
    let mut cards = CardTuple::new();
    let mut i: usize = 0;
    while i < hand.len()
        invariant
            i <= hand@.len(),
            hand@.len() <= CARD_TUPLE_CAPACITY,
            forall|i: int| 0 <= i < hand@.len() ==> (#[trigger] hand@[i]).card.valid(),
            cards@.len() == i,
            forall|k: int| 0 <= k < i ==> cards@[k] == hand@[k].card,
        decreases hand@.len() - i,
    {
        cards.push(hand[i].card);
        i = i + 1;
    }
    assert(cards@ =~= hand_cards(hand@));
    cards
}

/// The best hand that `player` can show.
pub fn showdown_strength(
    player: &PlayerState,
    community: CardTuple,
    use_from_hand: usize,
    rules: &SpecialRules,
) -> (s: HandStrength)
    requires
        can_show(*player, community@, use_from_hand as nat),
    ensures
        s.key() == showdown_key(*player, community@, use_from_hand as nat, rules@),
{
    let cards = cards_of(&player.hand);
    let s = best_hand_use_from_hand(use_from_hand, cards, community, SHOWDOWN_HAND_SIZE, rules);
    proof {
        lemma_best_using_unique(
            use_from_hand as nat,
            hand_cards(player.hand@),
            community@,
            SHOWDOWN_HAND_SIZE as nat,
            rules@,
            s.key(),
            showdown_key(*player, community@, use_from_hand as nat, rules@),
        );
    }
    s
}

/// Those of `roles` whose hand none of them beats, in the order of
/// `roles`.
fn strongest_players(
    roles: &Vec<PlayerRole>,
    strengths: &Vec<Option<HandStrength>>,
    Ghost(keys): Ghost<Seq<StrengthKey>>,
) -> (winners: Vec<PlayerRole>)
    requires
        roles@.len() > 0,
        keys.len() == strengths@.len(),
        forall|i: int|
            0 <= i < roles@.len() ==> {
                let role = #[trigger] roles@[i];
                &&& role < strengths@.len()
                &&& (strengths@[role as int] matches Some(s) && s.key() == keys[role as int])
            },
    ensures
        winners@ == top_of(roles@, keys, roles@.len() as int),
        0 < winners@.len() <= roles@.len(),
{
    let first = roles[0];
    let mut best: HandStrength = strengths[first].unwrap();
    let ghost mut at: int = 0;
    let mut i: usize = 1;
    proof {
        lemma_key_order_total(best.key(), best.key(), best.key());
    }
    while i < roles.len()
        invariant
            1 <= i <= roles@.len(),
            keys.len() == strengths@.len(),
            forall|i: int|
                0 <= i < roles@.len() ==> {
                    let role = #[trigger] roles@[i];
                    &&& role < strengths@.len()
                    &&& (strengths@[role as int] matches Some(s) && s.key() == keys[role as int])
                },
            0 <= at < i,
            best.key() == keys[roles@[at] as int],
            forall|k: int|
                0 <= k < i ==> key_order(keys[(#[trigger] roles@[k]) as int], best.key()) <= 0,
        decreases roles@.len() - i,
    {
        let role = roles[i];
        let hand: HandStrength = strengths[role].unwrap();
        let ghost old_best = best;
        proof {
            lemma_key_order_total(hand.key(), best.key(), hand.key());
            lemma_key_order_total(hand.key(), hand.key(), hand.key());
        }
        if hand.beats(&best) {
            best = hand;
            proof {
                at = i as int;
            }
        }
        proof {
            assert forall|k: int| 0 <= k < i + 1 implies key_order(
                keys[(#[trigger] roles@[k]) as int],
                best.key(),
            ) <= 0 by {
                if k < i {
                    lemma_key_order_total(keys[roles@[k] as int], old_best.key(), best.key());
                }
            }
        }
        i = i + 1;
    }
    let mut winners: Vec<PlayerRole> = Vec::new();
    let mut j: usize = 0;
    while j < roles.len()
        invariant
            j <= roles@.len(),
            keys.len() == strengths@.len(),
            forall|i: int|
                0 <= i < roles@.len() ==> {
                    let role = #[trigger] roles@[i];
                    &&& role < strengths@.len()
                    &&& (strengths@[role as int] matches Some(s) && s.key() == keys[role as int])
                },
            0 <= at < roles@.len(),
            best.key() == keys[roles@[at] as int],
            forall|k: int|
                0 <= k < roles@.len() ==> key_order(keys[(#[trigger] roles@[k]) as int], best.key())
                    <= 0,
            winners@ == top_of(roles@, keys, j as int),
            winners@.len() <= j,
            j > at ==> winners@.len() > 0,
        decreases roles@.len() - j,
    {
        let role = roles[j];
        let hand: HandStrength = strengths[role].unwrap();
        proof {
            lemma_key_order_total(hand.key(), best.key(), hand.key());
            if hand.key() == best.key() {
                assert(is_top(roles@, keys, role));
            } else {
                assert(key_order(keys[roles@[at] as int], keys[role as int]) > 0);
                assert(!is_top(roles@, keys, role));
            }
        }
        if hand.ties(&best) {
            winners.push(role);
        }
        j = j + 1;
    }
    winners
}

/// Settles the hand: each part of the pot goes to those of the players
/// who can win it that show the strongest hand.
pub fn calc_winners(variant: &PokerVariant, state: &HandState, rules: &SpecialRules) -> (w: Winners<
    PlayerRole,
>)
    requires
        showdown_ready(*state, *variant),
    ensures
        w.winners_by_pot@.len() == subpots_of(state.players@).len(),
        forall|j: int|
            0 <= j < w.winners_by_pot@.len() ==> {
                let part = #[trigger] w.winners_by_pot@[j];
                let pot = subpots_of(state.players@)[j];
                &&& part.0.chips == pot.0
                &&& part.0.players@ == pot.1
                &&& part.1@ == top_of(pot.1, showdown_keys(*state, *variant, rules@), pot.1.len() as int)
            },
        winners_fit(w.winners_by_pot@),
{
    let ghost ps = state.players@;
    let ghost keys = showdown_keys(*state, *variant, rules@);
    let n = state.players.len();
    let mut best_hands: Vec<Option<HandStrength>> = Vec::new();
    let mut i: usize = 0;
    while i < n
        invariant
            i <= n,
            n == ps.len(),
            ps == state.players@,
            showdown_ready(*state, *variant),
            keys == showdown_keys(*state, *variant, rules@),
            best_hands@.len() == i,
            forall|k: int|
                0 <= k < i && !(#[trigger] ps[k]).folded ==> (best_hands@[k] matches Some(s) && s.key()
                    == keys[k]),
        decreases n - i,
    {
        let player = &state.players[i];
        if player.folded {
            best_hands.push(None);
        } else {
            let s = showdown_strength(player, state.community_cards, variant.use_from_hand, rules);
            best_hands.push(Some(s));
        }
        i = i + 1;
    }
    let mut subpots = calc_subpots(state);
    let ghost pots = subpots_of(ps);
    let count = subpots.len();
    assert(count == pots.len()) by {
        assert(subpot_views(subpots@).len() == subpots@.len());
    }
    let mut retval: Vec<(Subpot<PlayerRole>, Vec<PlayerRole>)> = Vec::new();
    let mut j: usize = 0;
    proof {
        lemma_nothing_paid(ps);
    }
    while j < count
        invariant
            j <= count,
            count == pots.len(),
            count == subpots@.len(),
            pots == subpots_of(ps),
            subpot_views(subpots@) == pots,
            ps == state.players@,
            n == ps.len(),
            showdown_ready(*state, *variant),
            keys == showdown_keys(*state, *variant, rules@),
            best_hands@.len() == n,
            forall|k: int|
                0 <= k < n && !(#[trigger] ps[k]).folded ==> (best_hands@[k] matches Some(s) && s.key()
                    == keys[k]),
            retval@.len() == j,
            forall|k: int|
                0 <= k < j ==> {
                    let part = #[trigger] retval@[k];
                    &&& part.0.chips == pots[k].0
                    &&& part.0.players@ == pots[k].1
                    &&& part.1@ == top_of(pots[k].1, keys, pots[k].1.len() as int)
                    &&& 0 < part.1@.len() <= Chips::MAX
                    &&& part.0.chips >= 0
                },
            pot_sum(retval@, j as int) == chips_before(pots, j as int),
            paid_up_to(ps, -1) == 0,
        decreases count - j,
    {
        proof {
            lemma_subpots(ps, -1, n as nat, j as int);
            assert(subpot_views(subpots@)[j as int] == pots[j as int]);
        }
        let pot = &subpots[j];
        let chips = pot.chips;
        let players = pot.players.clone();
        assert(players@ == pot.players@);
        let winners = strongest_players(&players, &best_hands, Ghost(keys));
        let ghost before = retval@;
        retval.push((Subpot { chips, players }, winners));
        proof {
            assert forall|k: int| 0 <= k < j + 1 implies {
                let part = #[trigger] retval@[k];
                &&& part.0.chips == pots[k].0
                &&& part.0.players@ == pots[k].1
                &&& part.1@ == top_of(pots[k].1, keys, pots[k].1.len() as int)
                &&& 0 < part.1@.len() <= Chips::MAX
                &&& part.0.chips >= 0
            } by {
                if k < j {
                    assert(retval@[k] == before[k]);
                }
            }
            lemma_same_pots(before, retval@, j as int);
        }
        j = j + 1;
    }
    proof {
        if count > 0 {
            lemma_subpots(ps, -1, n as nat, count - 1);
        }
    }
    Winners { winners_by_pot: retval }
}

/// Below the lowest level nothing has been paid.
pub proof fn lemma_nothing_paid(players: Seq<PlayerState>)
    ensures
        paid_up_to(players, -1) == 0,
    decreases players.len(),
{
    if players.len() > 0 {
        lemma_nothing_paid(players.drop_last());
    }
}

/// Parts that are the same hold the same chips.
pub proof fn lemma_same_pots(
    a: Seq<(Subpot<PlayerRole>, Vec<PlayerRole>)>,
    b: Seq<(Subpot<PlayerRole>, Vec<PlayerRole>)>,
    k: int,
)
    requires
        0 <= k <= a.len(),
        a.len() <= b.len(),
        forall|i: int| 0 <= i < a.len() ==> a[i] == b[i],
    ensures
        pot_sum(a, k) == pot_sum(b, k),
    decreases k,
{
    if k > 0 {
        lemma_same_pots(a, b, k - 1);
    }
}


/// Nobody wins more than the pot holds.
pub proof fn lemma_winnings_fit(pots: Seq<(Subpot<PlayerRole>, Vec<PlayerRole>)>, who: PlayerRole)
    requires
        winners_fit(pots),
    ensures
        0 <= total_won(pots, who, pots.len() as int) <= Chips::MAX,
{
    lemma_total_won(pots, who, pots.len() as int);
}

/// What the first `n` players together get of a pot as ones of the first
/// `m` of its winners.
pub open spec fn shares(winners: Seq<PlayerRole>, pot: int, n: int, m: int) -> int
    decreases n,
{
    if n <= 0 {
        0
    } else {
        shares(winners, pot, n - 1, m) + share_in(winners, pot, (n - 1) as usize, m)
    }
}

/// What the first `n` players together win of the first `k` parts of the
/// pot.
pub open spec fn won_by(pots: Seq<(Subpot<PlayerRole>, Vec<PlayerRole>)>, n: int, k: int) -> int
    decreases n,
{
    if n <= 0 {
        0
    } else {
        won_by(pots, n - 1, k) + total_won(pots, (n - 1) as usize, k)
    }
}

proof fn lemma_shares_none(winners: Seq<PlayerRole>, pot: int, n: int)
    ensures
        shares(winners, pot, n, 0) == 0,
    decreases n,
{
    if n > 0 {
        lemma_shares_none(winners, pot, n - 1);
    }
}

proof fn lemma_shares_step(winners: Seq<PlayerRole>, pot: int, n: int, m: int)
    requires
        0 < m <= winners.len(),
        0 <= n <= usize::MAX,
    ensures
        shares(winners, pot, n, m) == shares(winners, pot, n, m - 1) + if winners[m - 1] < n {
            cut_of(pot, winners.len() as int, m - 1)
        } else {
            0
        },
    decreases n,
{
    if n > 0 {
        lemma_shares_step(winners, pot, n - 1, m);
    }
}

/// The winners of a pot, players all, get what is spent of it.
proof fn lemma_shares(winners: Seq<PlayerRole>, pot: int, n: int, m: int)
    requires
        0 <= m <= winners.len(),
        0 <= n <= usize::MAX,
        forall|a: int| 0 <= a < winners.len() ==> (#[trigger] winners[a]) < n,
    ensures
        shares(winners, pot, n, m) == spent(pot, winners.len() as int, m),
    decreases m,
{
    if m > 0 {
        lemma_shares(winners, pot, n, m - 1);
        lemma_shares_step(winners, pot, n, m);
        assert(winners[m - 1] < n);
    } else {
        lemma_shares_none(winners, pot, n);
    }
}

proof fn lemma_won_none(pots: Seq<(Subpot<PlayerRole>, Vec<PlayerRole>)>, n: int)
    ensures
        won_by(pots, n, 0) == 0,
    decreases n,
{
    if n > 0 {
        lemma_won_none(pots, n - 1);
    }
}

proof fn lemma_won_step(pots: Seq<(Subpot<PlayerRole>, Vec<PlayerRole>)>, n: int, k: int)
    requires
        0 < k <= pots.len(),
    ensures
        won_by(pots, n, k) == won_by(pots, n, k - 1) + shares(
            pots[k - 1].1@,
            pots[k - 1].0.chips as int,
            n,
            pots[k - 1].1@.len() as int,
        ),
    decreases n,
{
    if n > 0 {
        lemma_won_step(pots, n - 1, k);
    }
}

/// Every chip of the pot is won once: where the winners of each part are
/// players, what the players win adds up to what the parts hold.
pub proof fn lemma_all_is_won(pots: Seq<(Subpot<PlayerRole>, Vec<PlayerRole>)>, n: int, k: int)
    requires
        0 <= k <= pots.len(),
        0 <= n <= usize::MAX,
        forall|j: int|
            0 <= j < pots.len() ==> (#[trigger] pots[j]).1@.len() > 0 && pots[j].0.chips >= 0,
        forall|j: int, a: int|
            0 <= j < pots.len() && 0 <= a < pots[j].1@.len() ==> (#[trigger] pots[j].1@[a]) < n,
    ensures
        won_by(pots, n, k) == pot_sum(pots, k),
    decreases k,
{
    if k > 0 {
        lemma_all_is_won(pots, n, k - 1);
        lemma_won_step(pots, n, k);
        let winners = pots[k - 1].1@;
        let pot = pots[k - 1].0.chips as int;
        assert forall|a: int| 0 <= a < winners.len() implies (#[trigger] winners[a]) < n by {
            assert(pots[k - 1].1@[a] < n);
        }
        lemma_shares(winners, pot, n, winners.len() as int);
        lemma_spent(pot, winners.len() as int, winners.len() as int);
    } else {
        lemma_won_none(pots, n);
    }
}

/// The chips of the parts, added from either end, are the same.
pub proof fn lemma_chips_sum(pots: Seq<(int, Seq<PlayerRole>)>)
    ensures
        chips_before(pots, pots.len() as int) == sum_chips(pots),
    decreases pots.len(),
{
    if pots.len() > 0 {
        let rest = pots.drop_first();
        lemma_chips_sum(rest);
        assert(pots =~= seq![pots[0]] + rest);
        lemma_chips_before_shift(pots[0], rest, rest.len() as int);
    }
}

/// The strongest of some players are among those players.
pub proof fn lemma_top_of(roles: Seq<PlayerRole>, keys: Seq<StrengthKey>, k: int)
    requires
        0 <= k <= roles.len(),
    ensures
        forall|a: int|
            0 <= a < top_of(roles, keys, k).len() ==> roles.contains(
                #[trigger] top_of(roles, keys, k)[a],
            ),
    decreases k,
{
    if k > 0 {
        lemma_top_of(roles, keys, k - 1);
        assert(roles.contains(roles[k - 1]));
        let rest = top_of(roles, keys, k - 1);
        let all = top_of(roles, keys, k);
        assert forall|a: int| 0 <= a < all.len() implies roles.contains(#[trigger] all[a]) by {
            if a < rest.len() {
                assert(all[a] == rest[a]);
            } else {
                assert(all[a] == roles[k - 1]);
            }
        }
    }
}

} // verus!
