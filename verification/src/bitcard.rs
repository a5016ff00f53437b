//! Ranks, cards and sets of cards, each packed into one machine word.

use crate::card::{Card, Rank, Suit, NUM_RANKS, NUM_SUITS};
use vstd::multiset::Multiset;
use vstd::prelude::*;
use vstd::relations::{sorted_by, total_ordering};
use vstd::seq_lib::{group_to_multiset_ensures, lemma_sorted_unique};

verus! {

/// How many ranks a `RankTuple` can hold.
pub const RANK_TUPLE_CAPACITY: usize = 16;

/// How many cards a `CardTuple` can hold.
pub const CARD_TUPLE_CAPACITY: usize = 9;

/// The order in which ranks are sorted.
pub open spec fn rank_leq() -> spec_fn(Rank, Rank) -> bool {
    |a: Rank, b: Rank| a <= b
}

/// No entry of `s` is larger than a later one.
pub open spec fn ascending(s: Seq<Rank>) -> bool {
    forall|i: int, j: int| 0 <= i < j < s.len() ==> s[i] <= s[j]
}

/// The entries of `s`, smallest first.
pub open spec fn sorted_ranks(s: Seq<Rank>) -> Seq<Rank> {
    s.sort_by(rank_leq())
}

/// `sorted_ranks` rearranges its argument into ascending order.
pub proof fn lemma_sorted_ranks(s: Seq<Rank>)
    ensures
        ascending(sorted_ranks(s)),
        sorted_ranks(s).to_multiset() == s.to_multiset(),
        sorted_ranks(s).len() == s.len(),
{
    assert(total_ordering(rank_leq()));
    s.lemma_sort_by_ensures(rank_leq());
    let t = sorted_ranks(s);
    assert(ascending(t)) by {
        assert forall|i: int, j: int| 0 <= i < j < t.len() implies t[i] <= t[j] by {
            assert(rank_leq()(t[i], t[j]));
        }
    }
    s.to_multiset_ensures();
    t.to_multiset_ensures();
}

/// There is only one way to put given ranks into ascending order.
pub proof fn lemma_ascending_unique(x: Seq<Rank>, y: Seq<Rank>)
    requires
        ascending(x),
        ascending(y),
        x.to_multiset() == y.to_multiset(),
    ensures
        x == y,
{
    assert(total_ordering(rank_leq()));
    assert(sorted_by(x, rank_leq()));
    assert(sorted_by(y, rank_leq()));
    lemma_sorted_unique(x, y, rank_leq());
}

/// Sorting is idempotent: ranks that are already in ascending order are
/// left as they are.
pub proof fn lemma_sort_idempotent(s: Seq<Rank>)
    ensures
        sorted_ranks(sorted_ranks(s)) == sorted_ranks(s),
        ascending(s) ==> sorted_ranks(s) == s,
{
    lemma_sorted_ranks(s);
    lemma_sorted_ranks(sorted_ranks(s));
    lemma_ascending_unique(sorted_ranks(sorted_ranks(s)), sorted_ranks(s));
    if ascending(s) {
        lemma_ascending_unique(sorted_ranks(s), s);
    }
}

proof fn lemma_nibble_store(f: u64, v: u64, s: u64)
    by (bit_vector)
    requires
        s <= 60,
        v <= 15,
        f >> s == 0,
    ensures
        ((f | (v << s)) >> s) & 15 == v,
        forall|t: u64| t + 4 <= s ==> #[trigger] ((f | (v << s)) >> t) & 15 == (f >> t) & 15,
        s < 60 ==> (f | (v << s)) >> ((s + 4) as u64) == 0,
{
}

proof fn lemma_nibble_bound(f: u64, t: u64)
    by (bit_vector)
    ensures
        (f >> t) & 15 <= 15,
{
}

proof fn lemma_nibble_empty(f: u64, s: u64, t: u64)
    by (bit_vector)
    requires
        s <= t,
        t < 64,
        s < 64 ==> f >> s == 0,
        s < 64,
    ensures
        (f >> t) & 15 == 0,
{
}

proof fn lemma_same_nibbles(a: u64, b: u64)
    by (bit_vector)
    requires
        (a >> 0) & 15 == (b >> 0) & 15,
        (a >> 4) & 15 == (b >> 4) & 15,
        (a >> 8) & 15 == (b >> 8) & 15,
        (a >> 12) & 15 == (b >> 12) & 15,
        (a >> 16) & 15 == (b >> 16) & 15,
        (a >> 20) & 15 == (b >> 20) & 15,
        (a >> 24) & 15 == (b >> 24) & 15,
        (a >> 28) & 15 == (b >> 28) & 15,
        (a >> 32) & 15 == (b >> 32) & 15,
        (a >> 36) & 15 == (b >> 36) & 15,
        (a >> 40) & 15 == (b >> 40) & 15,
        (a >> 44) & 15 == (b >> 44) & 15,
        (a >> 48) & 15 == (b >> 48) & 15,
        (a >> 52) & 15 == (b >> 52) & 15,
        (a >> 56) & 15 == (b >> 56) & 15,
        (a >> 60) & 15 == (b >> 60) & 15,
    ensures
        a == b,
{
}

proof fn lemma_same_sextets(a: u64, b: u64)
    by (bit_vector)
    requires
        a >> 54 == 0,
        b >> 54 == 0,
        (a >> 0) & 63 == (b >> 0) & 63,
        (a >> 6) & 63 == (b >> 6) & 63,
        (a >> 12) & 63 == (b >> 12) & 63,
        (a >> 18) & 63 == (b >> 18) & 63,
        (a >> 24) & 63 == (b >> 24) & 63,
        (a >> 30) & 63 == (b >> 30) & 63,
        (a >> 36) & 63 == (b >> 36) & 63,
        (a >> 42) & 63 == (b >> 42) & 63,
        (a >> 48) & 63 == (b >> 48) & 63,
    ensures
        a == b,
{
}

proof fn lemma_sextet_empty(f: u64, s: u64, t: u64)
    by (bit_vector)
    requires
        s <= t,
        t < 64,
        f >> s == 0,
    ensures
        (f >> t) & 63 == 0,
        f >> t == 0,
{
}

proof fn lemma_sextet_parts(x: u64, y: u64)
    by (bit_vector)
    requires
        x <= 63,
        y <= 63,
        x >> 4 == y >> 4,
        x & 15 == y & 15,
    ensures
        x == y,
{
}

proof fn lemma_sextet_small(f: u64, t: u64)
    by (bit_vector)
    ensures
        (f >> t) & 63 <= 63,
{
}

proof fn lemma_low_nibble(r: usize)
    ensures
        ((r as u64) & 15) as int == (r as int) % 16,
{
    let x = r as u64;
    assert(x & 15 == x % 16) by (bit_vector);
}

/// Up to sixteen ranks in the order in which they were pushed, packed four
/// bits apiece into one word.
#[derive(Copy, Clone, Eq, Hash, PartialEq, Structural, Debug)]
pub struct RankTuple {
    rank_field: u64,
    length: usize,
}

impl View for RankTuple {
    type V = Seq<Rank>;

    closed spec fn view(&self) -> Seq<Rank> {
        Seq::new(
            self.length as nat,
            |i: int| ((self.rank_field >> ((4 * i) as u64)) & 15) as usize,
        )
    }
}

impl RankTuple {
    /// The word holds nothing beyond the ranks that were pushed.
    #[verifier::type_invariant]
    pub closed spec fn wf(self) -> bool {
        &&& self.length <= RANK_TUPLE_CAPACITY
        &&& self.length < RANK_TUPLE_CAPACITY ==> self.rank_field >> ((4 * self.length) as u64)
            == 0
    }

    /// Every rank a tuple holds fits in four bits.
    pub proof fn lemma_view(self)
        requires
            self.wf(),
        ensures
            self@.len() <= RANK_TUPLE_CAPACITY,
            forall|i: int| 0 <= i < self@.len() ==> #[trigger] self@[i] < 16,
    {
        assert forall|i: int| 0 <= i < self@.len() implies #[trigger] self@[i] < 16 by {
            lemma_nibble_bound(self.rank_field, (4 * i) as u64);
        }
    }

    proof fn lemma_same_nibble(self, other: RankTuple, i: int)
        requires
            self.wf(),
            other.wf(),
            self@ == other@,
            0 <= i < 16,
        ensures
            (self.rank_field >> ((4 * i) as u64)) & 15 == (other.rank_field >> ((4 * i) as u64)) & 15,
    {
        let a = self.rank_field;
        let b = other.rank_field;
        let n = self.length as int;
        let t = (4 * i) as u64;
        assert(self@.len() == self.length && other@.len() == other.length);
        assert(self.length == other.length);
        if i < n {
            lemma_nibble_bound(a, t);
            lemma_nibble_bound(b, t);
            assert(self@[i] == ((a >> t) & 15) as usize);
            assert(other@[i] == ((b >> t) & 15) as usize);
        } else {
            lemma_nibble_empty(a, (4 * n) as u64, t);
            lemma_nibble_empty(b, (4 * n) as u64, t);
        }
    }

    /// Two tuples that hold the same ranks are the same value.
    pub proof fn lemma_same_ranks(self, other: RankTuple)
        requires
            self.wf(),
            other.wf(),
            self@ == other@,
        ensures
            self == other,
    {
        assert(self@.len() == self.length && other@.len() == other.length);
        self.lemma_same_nibble(other, 0);
        self.lemma_same_nibble(other, 1);
        self.lemma_same_nibble(other, 2);
        self.lemma_same_nibble(other, 3);
        self.lemma_same_nibble(other, 4);
        self.lemma_same_nibble(other, 5);
        self.lemma_same_nibble(other, 6);
        self.lemma_same_nibble(other, 7);
        self.lemma_same_nibble(other, 8);
        self.lemma_same_nibble(other, 9);
        self.lemma_same_nibble(other, 10);
        self.lemma_same_nibble(other, 11);
        self.lemma_same_nibble(other, 12);
        self.lemma_same_nibble(other, 13);
        self.lemma_same_nibble(other, 14);
        self.lemma_same_nibble(other, 15);
        lemma_same_nibbles(self.rank_field, other.rank_field);
    }

    /// An empty tuple.
    pub fn new() -> (r: RankTuple)
        ensures
            r@ == Seq::<Rank>::empty(),
    {
        assert(0u64 >> 0u64 == 0) by (bit_vector);
        let r = RankTuple { rank_field: 0, length: 0 };
        assert(r@ =~= Seq::<Rank>::empty());
        r
    }

    /// The rank at position `idx`.
    pub fn get(&self, idx: usize) -> (r: Rank)
        requires
            idx < self@.len(),
        ensures
            r == self@[idx as int],
    {
        proof {
            use_type_invariant(self);
        }
        let shift: u64 = (idx * 4) as u64;
        proof {
            lemma_nibble_bound(self.rank_field, shift);
        }
        ((self.rank_field >> shift) & 15) as usize
    }

    /// Appends the low four bits of `rank`.
    pub fn push(&mut self, rank: Rank)
        requires
            old(self)@.len() < RANK_TUPLE_CAPACITY,
        ensures
            final(self)@ == old(self)@.push((rank % 16) as usize),
    {
        proof {
            use_type_invariant(&*self);
            lemma_low_nibble(rank);
        }
        let v: u64 = (rank as u64) & 15;
        let shift: u64 = (self.length * 4) as u64;
        let field: u64 = self.rank_field | (v << shift);
        let ghost before = *self;
        proof {
            lemma_nibble_bound(rank as u64, 0);
            assert((rank as u64 >> 0u64) & 15 == (rank as u64) & 15) by (bit_vector);
            lemma_nibble_store(self.rank_field, v, shift);
        }
        *self = RankTuple { rank_field: field, length: self.length + 1 };
        proof {
            assert(self@.len() == before@.len() + 1);
            assert forall|i: int| 0 <= i < self@.len() implies self@[i] == before@.push(
                (rank % 16) as usize,
            )[i] by {
                let t = (4 * i) as u64;
                if i < before@.len() {
                    assert(t + 4 <= shift);
                    assert((field >> t) & 15 == (before.rank_field >> t) & 15);
                } else {
                    assert(t == shift);
                }
            }
            assert(self@ =~= before@.push((rank % 16) as usize));
        }
    }

    /// Rearranges the ranks into ascending order, by counting how often each
    /// rank occurs.
    pub fn sort(&mut self)
        ensures
            final(self)@ == sorted_ranks(old(self)@),
    {
        broadcast use group_to_multiset_ensures;
        broadcast use vstd::multiset::group_multiset_axioms;

        let ghost input = self@;
        proof {
            use_type_invariant(&*self);
            self.lemma_view();
        }
        let mut counts: Vec<usize> = Vec::new();
        let mut r: usize = 0;
        while r < 16
            invariant
                r <= 16,
                counts@.len() == r,
                forall|x: int| 0 <= x < r ==> counts@[x] == 0,
            decreases 16 - r,
        {
            counts.push(0);
            r = r + 1;
        }
        let n: usize = self.len();
        let mut idx: usize = 0;
        while idx < n
            invariant
                idx <= n,
                n == input.len(),
                n <= 16,
                self@ == input,
                counts@.len() == 16,
                forall|i: int| 0 <= i < input.len() ==> #[trigger] input[i] < 16,
                forall|x: int|
                    0 <= x < 16 ==> #[trigger] counts@[x] == input.take(idx as int).to_multiset().count(
                        x as usize,
                    ),
            decreases n - idx,
        {
            let rank = self.get(idx);
            let ghost seen = input.take(idx as int);
            proof {
                assert(input.take(idx + 1) =~= seen.push(rank));
                vstd::seq_lib::to_multiset_build(seen, rank);
                vstd::seq_lib::to_multiset_len(seen);
                vstd::multiset::axiom_count_le_len(seen.to_multiset(), rank);
                assert(seen.to_multiset().count(rank) <= 16);
            }
            let c: usize = counts[rank];
            counts.set(rank, c + 1);
            idx = idx + 1;
        }
        assert(input.take(n as int) =~= input);
        self.clear();
        let ghost mut rest: Multiset<Rank> = input.to_multiset();
        let mut rank: usize = 0;
        while rank < 16
            invariant
                rank <= 16,
                counts@.len() == 16,
                ascending(self@),
                forall|i: int| 0 <= i < self@.len() ==> #[trigger] self@[i] < rank,
                input.to_multiset() =~= self@.to_multiset().add(rest),
                input.len() <= RANK_TUPLE_CAPACITY,
                forall|i: int| 0 <= i < input.len() ==> #[trigger] input[i] < 16,
                forall|x: int|
                    0 <= x < 16 ==> #[trigger] counts@[x] == input.to_multiset().count(x as usize),
                forall|x: Rank| x < rank ==> rest.count(x) == 0,
                forall|x: Rank| x >= rank ==> rest.count(x) == input.to_multiset().count(x),
            decreases 16 - rank,
        {
            let count: usize = counts[rank];
            let mut j: usize = 0;
            while j < count
                invariant
                    j <= count,
                    rank < 16,
                    count == input.to_multiset().count(rank),
                    ascending(self@),
                    forall|i: int| 0 <= i < self@.len() ==> #[trigger] self@[i] <= rank,
                    input.to_multiset() =~= self@.to_multiset().add(rest),
                    input.len() <= RANK_TUPLE_CAPACITY,
                    forall|x: Rank| x < rank ==> rest.count(x) == 0,
                    rest.count(rank) == count - j,
                    forall|x: Rank| x > rank ==> rest.count(x) == input.to_multiset().count(x),
                decreases count - j,
            {
                let ghost before = self@;
                proof {
                    vstd::multiset::axiom_count_le_len(rest, rank);
                    vstd::multiset::axiom_len_add(before.to_multiset(), rest);
                    vstd::seq_lib::to_multiset_len(before);
                    vstd::seq_lib::to_multiset_len(input);
                    assert(before.len() < input.len());
                }
                self.push(rank);
                proof {
                    assert(self@ == before.push(rank));
                    vstd::seq_lib::to_multiset_build(before, rank);
                    rest = rest.remove(rank);
                    assert(input.to_multiset() =~= self@.to_multiset().add(rest));
                }
                j = j + 1;
            }
            rank = rank + 1;
        }
        proof {
            assert forall|x: Rank| rest.count(x) == 0 by {
                if x >= 16 {
                    if input.to_multiset().count(x) > 0 {
                        assert(input.to_multiset().contains(x));
                        assert(input.contains(x));
                        let i = choose|i: int| 0 <= i < input.len() && input[i] == x;
                        assert(input[i] < 16);
                    }
                }
            }
            assert(rest =~= Multiset::<Rank>::empty());
            assert(self@.to_multiset() =~= input.to_multiset());
            lemma_sorted_ranks(input);
            lemma_ascending_unique(self@, sorted_ranks(input));
        }
    }

    /// Forgets every rank.
    pub fn clear(&mut self)
        ensures
            final(self)@ == Seq::<Rank>::empty(),
    {
        assert(0u64 >> 0u64 == 0) by (bit_vector);
        *self = RankTuple { rank_field: 0, length: 0 };
        assert(self@ =~= Seq::<Rank>::empty());
    }

    /// A cursor over the ranks that can be read from either end.
    pub fn iter(&self) -> (it: RankTupleIter)
        ensures
            it@ == self@,
    {
        proof {
            use_type_invariant(self);
        }
        let it = if self.length == 0 {
            RankTupleIter { rank_tuple: *self, idx: 1, ridx: 0 }
        } else {
            RankTupleIter { rank_tuple: *self, idx: 0, ridx: self.length - 1 }
        };
        assert(it@ =~= self@);
        it
    }

    /// The rank that was pushed first, if any.
    pub fn first(&self) -> (r: Option<Rank>)
        ensures
            self@.len() == 0 ==> r is None,
            self@.len() > 0 ==> r == Some(self@[0]),
    {
        if self.length == 0 {
            None
        } else {
            Some(self.get(0))
        }
    }

    /// The rank that was pushed last, if any.
    pub fn last(&self) -> (r: Option<Rank>)
        ensures
            self@.len() == 0 ==> r is None,
            self@.len() > 0 ==> r == Some(self@.last()),
    {
        if self.length == 0 {
            None
        } else {
            Some(self.get(self.length - 1))
        }
    }

    /// Number of ranks held.
    pub fn len(&self) -> (n: usize)
        ensures
            n == self@.len(),
            n <= RANK_TUPLE_CAPACITY,
    {
        proof {
            use_type_invariant(self);
        }
        self.length
    }

    /// The ranks of `v`, in the same order.
    pub fn from_vec(v: Vec<Rank>) -> (r: RankTuple)
        requires
            v@.len() <= RANK_TUPLE_CAPACITY,
        ensures
            r@ == v@.map_values(|x: Rank| (x % 16) as usize),
    {
        let mut r = RankTuple::new();
        let mut i: usize = 0;
        while i < v.len()
            invariant
                i <= v@.len(),
                v@.len() <= RANK_TUPLE_CAPACITY,
                r@ == v@.take(i as int).map_values(|x: Rank| (x % 16) as usize),
            decreases v@.len() - i,
        {
            let ghost before = r@;
            r.push(v[i]);
            proof {
                assert(v@.take(i + 1) =~= v@.take(i as int).push(v@[i as int]));
                assert(r@ =~= v@.take(i + 1).map_values(|x: Rank| (x % 16) as usize));
            }
            i = i + 1;
        }
        assert(v@.take(v@.len() as int) =~= v@);
        r
    }

    /// The ranks as a vector, in the same order.
    pub fn to_vec(&self) -> (v: Vec<Rank>)
        ensures
            v@ == self@,
    {
        let mut v: Vec<Rank> = Vec::new();
        let n = self.len();
        let mut i: usize = 0;
        while i < n
            invariant
                i <= n,
                n == self@.len(),
                v@ == self@.take(i as int),
            decreases n - i,
        {
            v.push(self.get(i));
            assert(self@.take(i + 1) =~= self@.take(i as int).push(self@[i as int]));
            i = i + 1;
        }
        assert(self@.take(n as int) =~= self@);
        v
    }
}

/// A cursor over a `RankTuple` that hands ranks out from the front and from
/// the back until the two ends meet.
#[derive(Copy, Clone, Eq, PartialEq, Debug)]
pub struct RankTupleIter {
    rank_tuple: RankTuple,
    idx: usize,
    ridx: usize,
}

impl View for RankTupleIter {
    type V = Seq<Rank>;

    /// The ranks that have not been handed out yet.
    closed spec fn view(&self) -> Seq<Rank> {
        if self.ridx < self.idx {
            Seq::empty()
        } else {
            self.rank_tuple@.subrange(self.idx as int, self.ridx + 1)
        }
    }
}

impl RankTupleIter {
    #[verifier::type_invariant]
    pub closed spec fn wf(self) -> bool {
        &&& self.rank_tuple.wf()
        &&& self.idx <= RANK_TUPLE_CAPACITY
        &&& self.idx <= self.ridx ==> self.ridx < self.rank_tuple@.len()
    }

    /// Hands out the frontmost remaining rank.
    pub fn next(&mut self) -> (r: Option<Rank>)
        ensures
            old(self)@.len() == 0 ==> r is None && final(self)@ == old(self)@,
            old(self)@.len() > 0 ==> r == Some(old(self)@[0]) && final(self)@ == old(
                self,
            )@.drop_first(),
    {
        proof {
            use_type_invariant(&*self);
        }
        if self.ridx < self.idx {
            None
        } else {
            let retval = self.rank_tuple.get(self.idx);
            let ghost before = *self;
            *self = RankTupleIter {
                rank_tuple: self.rank_tuple,
                idx: self.idx + 1,
                ridx: self.ridx,
            };
            assert(self@ =~= before@.drop_first());
            Some(retval)
        }
    }

    /// Hands out the rearmost remaining rank.
    pub fn next_back(&mut self) -> (r: Option<Rank>)
        ensures
            old(self)@.len() == 0 ==> r is None && final(self)@ == old(self)@,
            old(self)@.len() > 0 ==> r == Some(old(self)@.last()) && final(self)@ == old(
                self,
            )@.drop_last(),
    {
        proof {
            use_type_invariant(&*self);
        }
        if self.ridx < self.idx {
            None
        } else {
            let retval = self.rank_tuple.get(self.ridx);
            let ghost before = *self;
            if self.ridx == 0 {
                *self = RankTupleIter { rank_tuple: self.rank_tuple, idx: 1, ridx: 0 };
            } else {
                *self = RankTupleIter {
                    rank_tuple: self.rank_tuple,
                    idx: self.idx,
                    ridx: self.ridx - 1,
                };
            }
            assert(self@ =~= before@.drop_last());
            Some(retval)
        }
    }

    /// Number of ranks that have not been handed out yet.
    pub fn len(&self) -> (n: usize)
        ensures
            n == self@.len(),
    {
        proof {
            use_type_invariant(self);
        }
        if self.ridx < self.idx {
            0
        } else {
            self.ridx - self.idx + 1
        }
    }
}


proof fn lemma_sextet_store(f: u64, su: u64, r: u64, s: u64)
    by (bit_vector)
    requires
        s <= 48,
        su <= 3,
        r <= 15,
        f >> s == 0,
    ensures
        (f | (su << ((s + 4) as u64))) | (r << s) == f | (((su << 4) | r) << s),
        ((f | (((su << 4) | r) << s)) >> s) & 63 == (su << 4) | r,
        forall|t: u64|
            t + 6 <= s ==> #[trigger] ((f | (((su << 4) | r) << s)) >> t) & 63 == (f >> t) & 63,
        (f | (((su << 4) | r) << s)) >> ((s + 6) as u64) == 0,
        ((su << 4) | r) >> 4 == su,
        ((su << 4) | r) & 15 == r,
{
}

proof fn lemma_sextet_bound(f: u64, t: u64)
    by (bit_vector)
    ensures
        ((f >> t) & 63) >> 4 <= 3,
        ((f >> t) & 63) & 15 <= 15,
{
}

/// The card that six packed bits stand for.
spec fn unpack_card(bits: u64) -> Card {
    Card { suit: Suit((bits >> 4) as usize), rank: (bits & 15) as usize }
}

/// Up to nine cards in the order in which they were pushed, packed six bits
/// apiece (four for the rank, two for the suit) into one word.
#[derive(Copy, Clone, Eq, PartialEq, Structural, Debug)]
pub struct CardTuple {
    card_field: u64,
    length: usize,
}

impl View for CardTuple {
    type V = Seq<Card>;

    closed spec fn view(&self) -> Seq<Card> {
        Seq::new(
            self.length as nat,
            |i: int| unpack_card((self.card_field >> ((6 * i) as u64)) & 63),
        )
    }
}

impl CardTuple {
    /// The word holds nothing beyond the cards that were pushed, and each of
    /// them is a card.
    #[verifier::type_invariant]
    pub closed spec fn wf(self) -> bool {
        &&& self.length <= CARD_TUPLE_CAPACITY
        &&& self.card_field >> ((6 * self.length) as u64) == 0
        &&& forall|i: int| 0 <= i < self.length ==> (#[trigger] self@[i]).valid()
    }

    /// What is known of the cards of any tuple.
    pub proof fn lemma_view(self)
        requires
            self.wf(),
        ensures
            self@.len() <= CARD_TUPLE_CAPACITY,
            forall|i: int| 0 <= i < self@.len() ==> (#[trigger] self@[i]).valid(),
    {
    }

    proof fn lemma_same_sextet(self, other: CardTuple, i: int)
        requires
            self.wf(),
            other.wf(),
            self@ == other@,
            0 <= i < 9,
        ensures
            (self.card_field >> ((6 * i) as u64)) & 63 == (other.card_field >> ((6 * i) as u64)) & 63,
    {
        let a = self.card_field;
        let b = other.card_field;
        let n = self.length as int;
        let t = (6 * i) as u64;
        assert(self@.len() == self.length && other@.len() == other.length);
        assert(self.length == other.length);
        if i < n {
            let x = (a >> t) & 63;
            let y = (b >> t) & 63;
            assert(self@[i] == unpack_card(x));
            assert(other@[i] == unpack_card(y));
            lemma_sextet_small(a, t);
            lemma_sextet_small(b, t);
            lemma_sextet_bound(a, t);
            lemma_sextet_bound(b, t);
            assert(unpack_card(x) == unpack_card(y));
            lemma_sextet_parts(x, y);
        } else {
            lemma_sextet_empty(a, (6 * n) as u64, t);
            lemma_sextet_empty(b, (6 * n) as u64, t);
        }
    }

    /// Two tuples that hold the same cards are the same value.
    pub proof fn lemma_same_cards(self, other: CardTuple)
        requires
            self.wf(),
            other.wf(),
            self@ == other@,
        ensures
            self == other,
    {
        let n = self.length as int;
        assert(self@.len() == self.length && other@.len() == other.length);
        assert(self.length == other.length);
        lemma_sextet_empty(self.card_field, (6 * n) as u64, 54);
        lemma_sextet_empty(other.card_field, (6 * n) as u64, 54);
        self.lemma_same_sextet(other, 0);
        self.lemma_same_sextet(other, 1);
        self.lemma_same_sextet(other, 2);
        self.lemma_same_sextet(other, 3);
        self.lemma_same_sextet(other, 4);
        self.lemma_same_sextet(other, 5);
        self.lemma_same_sextet(other, 6);
        self.lemma_same_sextet(other, 7);
        self.lemma_same_sextet(other, 8);
        lemma_same_sextets(self.card_field, other.card_field);
    }

    /// An empty tuple.
    pub fn new() -> (r: CardTuple)
        ensures
            r@ == Seq::<Card>::empty(),
    {
        assert(0u64 >> 0u64 == 0) by (bit_vector);
        let r = CardTuple { card_field: 0, length: 0 };
        assert(r@ =~= Seq::<Card>::empty());
        r
    }

    /// Appends `card`.
    pub fn push(&mut self, card: Card)
        requires
            old(self)@.len() < CARD_TUPLE_CAPACITY,
            card.valid(),
        ensures
            final(self)@ == old(self)@.push(card),
    {
        proof {
            use_type_invariant(&*self);
        }
        let ghost before = *self;
        let Suit(suit) = card.suit;
        let shift: u64 = (self.length * 6) as u64;
        proof {
            lemma_sextet_store(self.card_field, suit as u64, card.rank as u64, shift);
        }
        let mut field: u64 = self.card_field;
        field = field | ((suit as u64) << (shift + 4));
        field = field | ((card.rank as u64) << shift);
        let length: usize = self.length + 1;
        proof {
            let bits = ((suit as u64) << 4) | (card.rank as u64);
            let after = CardTuple { card_field: field, length };
            assert(unpack_card(bits) == card);
            assert forall|i: int| 0 <= i < length implies #[trigger] after@[i] == before@.push(
                card,
            )[i] by {
                let t = (6 * i) as u64;
                if i < before@.len() {
                    assert(t + 6 <= shift);
                    assert((field >> t) & 63 == (before.card_field >> t) & 63);
                } else {
                    assert(t == shift);
                }
            }
            assert(after@ =~= before@.push(card));
            assert forall|i: int| 0 <= i < length implies (#[trigger] after@[i]).valid() by {
                if i < before@.len() {
                    assert(before@[i].valid());
                }
            }
        }
        *self = CardTuple { card_field: field, length };
    }

    /// The card at position `idx`.
    pub fn get(&self, idx: usize) -> (c: Card)
        requires
            idx < self@.len(),
        ensures
            c == self@[idx as int],
            c.valid(),
    {
        proof {
            use_type_invariant(self);
            assert(self@[idx as int].valid());
        }
        let shift: u64 = (idx * 6) as u64;
        proof {
            lemma_sextet_bound(self.card_field, shift);
        }
        let card: u64 = (self.card_field >> shift) & 63;
        let suit = Suit((card >> 4) as usize);
        let rank = (card & 15) as usize;
        Card { suit, rank }
    }

    /// Number of cards held.
    pub fn len(&self) -> (n: usize)
        ensures
            n == self@.len(),
            n <= CARD_TUPLE_CAPACITY,
    {
        proof {
            use_type_invariant(self);
        }
        self.length
    }

    /// A cursor over the cards, first pushed first.
    pub fn iter(&self) -> (it: CardTupleIter)
        ensures
            it@ == self@,
    {
        proof {
            use_type_invariant(self);
        }
        let it = CardTupleIter { card_tuple: *self, idx: 0 };
        assert(it@ =~= self@);
        it
    }

    /// The cards of `v`, in the same order.
    pub fn from_vec(v: Vec<Card>) -> (r: CardTuple)
        requires
            v@.len() <= CARD_TUPLE_CAPACITY,
            forall|i: int| 0 <= i < v@.len() ==> (#[trigger] v@[i]).valid(),
        ensures
            r@ == v@,
    {
        let mut r = CardTuple::new();
        let mut i: usize = 0;
        while i < v.len()
            invariant
                i <= v@.len(),
                v@.len() <= CARD_TUPLE_CAPACITY,
                forall|i: int| 0 <= i < v@.len() ==> (#[trigger] v@[i]).valid(),
                r@ == v@.take(i as int),
            decreases v@.len() - i,
        {
            r.push(v[i]);
            assert(v@.take(i + 1) =~= v@.take(i as int).push(v@[i as int]));
            i = i + 1;
        }
        assert(v@.take(v@.len() as int) =~= v@);
        r
    }

    /// The cards as a vector, in the same order.
    pub fn to_vec(&self) -> (v: Vec<Card>)
        ensures
            v@ == self@,
    {
        let mut v: Vec<Card> = Vec::new();
        let n = self.len();
        let mut i: usize = 0;
        while i < n
            invariant
                i <= n,
                n == self@.len(),
                v@ == self@.take(i as int),
            decreases n - i,
        {
            v.push(self.get(i));
            assert(self@.take(i + 1) =~= self@.take(i as int).push(self@[i as int]));
            i = i + 1;
        }
        assert(self@.take(n as int) =~= self@);
        v
    }

    /// The cards of `self` followed by those of `rhs`.
    pub fn concat(self, rhs: CardTuple) -> (r: CardTuple)
        requires
            self@.len() + rhs@.len() <= CARD_TUPLE_CAPACITY,
        ensures
            r@ == self@ + rhs@,
    {
        let mut r = self;
        let n = rhs.len();
        let mut i: usize = 0;
        while i < n
            invariant
                i <= n,
                n == rhs@.len(),
                self@.len() + rhs@.len() <= CARD_TUPLE_CAPACITY,
                r@ == self@ + rhs@.take(i as int),
            decreases n - i,
        {
            r.push(rhs.get(i));
            assert(rhs@.take(i + 1) =~= rhs@.take(i as int).push(rhs@[i as int]));
            assert(r@ =~= self@ + rhs@.take(i + 1));
            i = i + 1;
        }
        assert(rhs@.take(n as int) =~= rhs@);
        r
    }

    /// The same cards but for position `idx`, where `card` stands.
    pub fn with_card(self, idx: usize, card: Card) -> (r: CardTuple)
        requires
            idx < self@.len(),
            card.valid(),
        ensures
            r@ == self@.update(idx as int, card),
    {
        let mut r = CardTuple::new();
        let n = self.len();
        let mut i: usize = 0;
        while i < n
            invariant
                i <= n,
                n == self@.len(),
                n <= CARD_TUPLE_CAPACITY,
                idx < n,
                card.valid(),
                r@ == self@.update(idx as int, card).take(i as int),
            decreases n - i,
        {
            let c = if i == idx {
                card
            } else {
                self.get(i)
            };
            r.push(c);
            assert(self@.update(idx as int, card).take(i + 1) =~= self@.update(
                idx as int,
                card,
            ).take(i as int).push(c));
            i = i + 1;
        }
        assert(self@.update(idx as int, card).take(n as int) =~= self@.update(idx as int, card));
        r
    }

    /// The ranks of the cards, in the same order.
    pub fn ranks(&self) -> (r: RankTuple)
        ensures
            r@ == self@.map_values(|c: Card| c.rank),
    {
        let mut r = RankTuple::new();
        let n = self.len();
        let mut i: usize = 0;
        while i < n
            invariant
                i <= n,
                n == self@.len(),
                n <= CARD_TUPLE_CAPACITY,
                r@ == self@.take(i as int).map_values(|c: Card| c.rank),
            decreases n - i,
        {
            let c = self.get(i);
            r.push(c.rank);
            proof {
                assert(self@.take(i + 1) =~= self@.take(i as int).push(self@[i as int]));
                assert(r@ =~= self@.take(i + 1).map_values(|c: Card| c.rank));
            }
            i = i + 1;
        }
        assert(self@.take(n as int) =~= self@);
        r
    }
}

/// A cursor over a `CardTuple`.
#[derive(Copy, Clone, Eq, PartialEq, Debug)]
pub struct CardTupleIter {
    card_tuple: CardTuple,
    idx: usize,
}

impl View for CardTupleIter {
    type V = Seq<Card>;

    /// The cards that have not been handed out yet.
    closed spec fn view(&self) -> Seq<Card> {
        if self.card_tuple@.len() <= self.idx {
            Seq::empty()
        } else {
            self.card_tuple@.skip(self.idx as int)
        }
    }
}

impl CardTupleIter {
    #[verifier::type_invariant]
    pub closed spec fn wf(self) -> bool {
        self.card_tuple.wf() && self.idx <= CARD_TUPLE_CAPACITY
    }

    /// Hands out the next card.
    pub fn next(&mut self) -> (r: Option<Card>)
        ensures
            old(self)@.len() == 0 ==> r is None && final(self)@ == old(self)@,
            old(self)@.len() > 0 ==> r == Some(old(self)@[0]) && final(self)@ == old(
                self,
            )@.drop_first(),
    {
        proof {
            use_type_invariant(&*self);
        }
        if self.card_tuple.len() <= self.idx {
            None
        } else {
            let retval = self.card_tuple.get(self.idx);
            let ghost before = *self;
            *self = CardTupleIter { card_tuple: self.card_tuple, idx: self.idx + 1 };
            assert(self@ =~= before@.drop_first());
            Some(retval)
        }
    }
}

/// Number of cards in a deck.
pub const DECK_SIZE: usize = 52;

proof fn lemma_bit_set(f: u64, i: u64, j: u64)
    by (bit_vector)
    requires
        i < 52,
        j < 52,
        f >> 52 == 0,
    ensures
        ((f | (1u64 << i)) & (1u64 << j) != 0) <==> (i == j || f & (1u64 << j) != 0),
        ((f & !(1u64 << i)) & (1u64 << j) != 0) <==> (i != j && f & (1u64 << j) != 0),
        (f | (1u64 << i)) >> 52 == 0,
        (f & !(1u64 << i)) >> 52 == 0,
{
}

proof fn lemma_no_bits(j: u64)
    by (bit_vector)
    requires
        j < 64,
    ensures
        0u64 & (1u64 << j) == 0,
        0u64 >> 52 == 0,
{
}

/// The deck card at position `idx` among the 52.
pub open spec fn card_at(idx: int) -> Card {
    Card { suit: Suit((idx / (NUM_RANKS as int)) as usize), rank: (idx % (NUM_RANKS as int)) as usize }
}

/// Whether bit `idx` of `field` is set.
spec fn has_bit(field: u64, idx: int) -> bool {
    field & (1u64 << (idx as u64)) != 0
}

/// The deck cards whose bits are set in `field` at positions `idx` and up,
/// lowest position first.
spec fn cards_from(field: u64, idx: int) -> Seq<Card>
    decreases DECK_SIZE - idx,
{
    if idx < 0 || idx >= DECK_SIZE {
        Seq::empty()
    } else if has_bit(field, idx) {
        seq![card_at(idx)] + cards_from(field, idx + 1)
    } else {
        cards_from(field, idx + 1)
    }
}

/// The cards of `cards` that stand at position `idx` of the deck or after
/// it, in the order of the deck.
pub open spec fn deck_order_from(cards: Set<Card>, idx: int) -> Seq<Card>
    decreases DECK_SIZE - idx,
{
    if idx < 0 || idx >= DECK_SIZE {
        Seq::empty()
    } else if cards.contains(card_at(idx)) {
        seq![card_at(idx)] + deck_order_from(cards, idx + 1)
    } else {
        deck_order_from(cards, idx + 1)
    }
}

/// The cards of `cards` in the order of the deck: by suit, and by rank
/// within a suit.
pub open spec fn deck_order(cards: Set<Card>) -> Seq<Card> {
    deck_order_from(cards, 0)
}

/// A set of deck cards, one bit per card.
#[derive(Copy, Clone, Eq, PartialEq, Structural, Debug, Hash)]
pub struct CardSet {
    card_field: u64,
}

impl View for CardSet {
    type V = Set<Card>;

    closed spec fn view(&self) -> Set<Card> {
        Set::new(|c: Card| c.in_deck() && has_bit(self.card_field, c.index()))
    }
}

impl CardSet {
    #[verifier::type_invariant]
    pub closed spec fn wf(self) -> bool {
        self.card_field >> 52 == 0
    }

    /// The cards of the set in the order in which it is walked: by suit,
    /// and by rank within a suit.
    pub closed spec fn ordered(self) -> Seq<Card> {
        cards_from(self.card_field, 0)
    }

    /// An empty set.
    pub fn new() -> (r: CardSet)
        ensures
            r@ == Set::<Card>::empty(),
    {
        proof {
            lemma_no_bits(0);
        }
        let r = CardSet { card_field: 0 };
        proof {
            assert forall|c: Card| !r@.contains(c) by {
                if c.in_deck() {
                    lemma_no_bits(c.index() as u64);
                }
            }
            assert(r@ =~= Set::<Card>::empty());
        }
        r
    }

    /// Adds `card`; tells whether it was missing before.
    pub fn insert(&mut self, card: Card) -> (added: bool)
        requires
            card.in_deck(),
        ensures
            final(self)@ == old(self)@.insert(card),
            added == !old(self)@.contains(card),
    {
        proof {
            use_type_invariant(&*self);
        }
        let ghost before = *self;
        let Suit(suit) = card.suit;
        let idx: usize = (suit * NUM_RANKS) + card.rank;
        let old_bit = self.contains_index(idx);
        let field: u64 = self.card_field | (1u64 << (idx as u64));
        proof {
            lemma_bit_set(self.card_field, idx as u64, idx as u64);
            let after = CardSet { card_field: field };
            assert forall|c: Card| after@.contains(c) <==> before@.insert(card).contains(c) by {
                if c.in_deck() {
                    lemma_bit_set(before.card_field, idx as u64, c.index() as u64);
                }
            }
            assert(after@ =~= before@.insert(card));
        }
        *self = CardSet { card_field: field };
        !old_bit
    }

    /// Takes `card` out; tells whether it was there before.
    pub fn remove(&mut self, card: Card) -> (removed: bool)
        requires
            card.in_deck(),
        ensures
            final(self)@ == old(self)@.remove(card),
            removed == old(self)@.contains(card),
    {
        proof {
            use_type_invariant(&*self);
        }
        let ghost before = *self;
        let Suit(suit) = card.suit;
        let idx: usize = (suit * NUM_RANKS) + card.rank;
        let old_bit = self.contains_index(idx);
        let field: u64 = self.card_field & !(1u64 << (idx as u64));
        proof {
            lemma_bit_set(self.card_field, idx as u64, idx as u64);
            let after = CardSet { card_field: field };
            assert forall|c: Card| after@.contains(c) <==> before@.remove(card).contains(c) by {
                if c.in_deck() {
                    lemma_bit_set(before.card_field, idx as u64, c.index() as u64);
                }
            }
            assert(after@ =~= before@.remove(card));
        }
        *self = CardSet { card_field: field };
        old_bit
    }

    /// Whether `card` is in the set.
    pub fn contains(&self, card: Card) -> (r: bool)
        requires
            card.in_deck(),
        ensures
            r == self@.contains(card),
    {
        let Suit(suit) = card.suit;
        self.contains_index((suit * NUM_RANKS) + card.rank)
    }

    /// A cursor over the cards of the set, in ascending position.
    pub fn iter(&self) -> (it: CardSetIter)
        ensures
            it@ == self.ordered(),
    {
        proof {
            use_type_invariant(self);
        }
        CardSetIter { card_set: *self, idx: 0 }
    }

    /// Whether the card at position `idx` among the 52 is in the set.
    pub fn contains_index(&self, idx: usize) -> (r: bool)
        requires
            idx < DECK_SIZE,
        ensures
            r == self@.contains(card_at(idx as int)),
    {
        assert(card_at(idx as int).index() == idx);
        (self.card_field & (1u64 << (idx as u64))) != 0
    }

    /// The deck card at position `idx` among the 52.
    pub fn card_from_index(idx: usize) -> (c: Card)
        requires
            idx < DECK_SIZE,
        ensures
            c == card_at(idx as int),
            c.in_deck(),
    {
        let suit = Suit(idx / NUM_RANKS);
        let rank = idx % NUM_RANKS;
        Card { suit, rank }
    }

    /// The set of the cards of `v`.
    pub fn from_vec(v: Vec<Card>) -> (r: CardSet)
        requires
            forall|i: int| 0 <= i < v@.len() ==> (#[trigger] v@[i]).in_deck(),
        ensures
            r@ == v@.to_set(),
    {
        let mut r = CardSet::new();
        let mut i: usize = 0;
        while i < v.len()
            invariant
                i <= v@.len(),
                forall|i: int| 0 <= i < v@.len() ==> (#[trigger] v@[i]).in_deck(),
                r@ == v@.take(i as int).to_set(),
            decreases v@.len() - i,
        {
            r.insert(v[i]);
            proof {
                let a = v@.take(i as int);
                let b = v@.take(i + 1);
                assert(b =~= a.push(v@[i as int]));
                assert forall|c: Card| b.to_set().contains(c) <==> a.to_set().insert(
                    v@[i as int],
                ).contains(c) by {
                    if b.contains(c) {
                        let k = choose|k: int| 0 <= k < b.len() && b[k] == c;
                        if k < a.len() {
                            assert(a[k] == c);
                        }
                    }
                    if a.contains(c) {
                        let k = choose|k: int| 0 <= k < a.len() && a[k] == c;
                        assert(b[k] == c);
                    }
                    assert(b[i as int] == v@[i as int]);
                }
                assert(b.to_set() =~= a.to_set().insert(v@[i as int]));
            }
            i = i + 1;
        }
        assert(v@.take(v@.len() as int) =~= v@);
        r
    }

    /// The cards of the set in the order in which it is walked.
    pub fn to_vec(&self) -> (v: Vec<Card>)
        ensures
            v@ == self.ordered(),
            v@ == deck_order(self@),
    {
        proof {
            use_type_invariant(self);
            self.lemma_deck_order();
        }
        let mut v: Vec<Card> = Vec::new();
        let mut it = self.iter();
        let ghost mut rest = it@;
        loop
            invariant
                self.ordered() == v@ + it@,
                self.ordered() == deck_order(self@),
            decreases it@.len(),
        {
            let ghost before = it@;
            match it.next() {
                Some(c) => {
                    v.push(c);
                    assert(self.ordered() =~= v@ + it@);
                },
                None => {
                    assert(self.ordered() =~= v@);
                    return v;
                },
            }
        }
    }

    /// A set is walked in the order of the deck.
    pub proof fn lemma_deck_order(self)
        ensures
            self.ordered() == deck_order(self@),
    {
        lemma_order_from(self, 0);
    }

    /// The order in which a set is walked holds each of its cards once,
    /// lower positions first.
    pub proof fn lemma_ordered(self)
        requires
            self.wf(),
        ensures
            forall|c: Card| self@.contains(c) <==> self.ordered().contains(c),
            forall|i: int, j: int|
                0 <= i < j < self.ordered().len() ==> (#[trigger] self.ordered()[i]).index() < (
                #[trigger] self.ordered()[j]).index(),
            forall|i: int| 0 <= i < self.ordered().len() ==> (#[trigger] self.ordered()[i]).in_deck(),
            self.ordered().len() <= DECK_SIZE,
    {
        lemma_cards_from(self.card_field, 0);
        assert forall|c: Card| self@.contains(c) <==> self.ordered().contains(c) by {
            if self@.contains(c) {
                assert(card_at(c.index()) == c);
            }
            if self.ordered().contains(c) {
                let k = choose|k: int| 0 <= k < self.ordered().len() && self.ordered()[k] == c;
                assert(self.ordered()[k].in_deck());
            }
        }
    }
}

proof fn lemma_order_from(set: CardSet, idx: int)
    requires
        0 <= idx <= DECK_SIZE,
    ensures
        cards_from(set.card_field, idx) == deck_order_from(set@, idx),
    decreases DECK_SIZE - idx,
{
    if idx < DECK_SIZE {
        lemma_order_from(set, idx + 1);
        assert(card_at(idx).in_deck() && card_at(idx).index() == idx);
    }
}

/// What `cards_from` holds: the cards at set bits from `idx` up, each once
/// and in ascending position.
proof fn lemma_cards_from(field: u64, idx: int)
    requires
        0 <= idx <= DECK_SIZE,
    ensures
        cards_from(field, idx).len() <= DECK_SIZE - idx,
        forall|i: int|
            0 <= i < cards_from(field, idx).len() ==> {
                let c = #[trigger] cards_from(field, idx)[i];
                c.in_deck() && idx <= c.index() && has_bit(field, c.index())
            },
        forall|i: int, j: int|
            0 <= i < j < cards_from(field, idx).len() ==> (#[trigger] cards_from(
                field,
                idx,
            )[i]).index() < (#[trigger] cards_from(field, idx)[j]).index(),
        forall|k: int|
            idx <= k < DECK_SIZE && has_bit(field, k) ==> cards_from(field, idx).contains(
                #[trigger] card_at(k),
            ),
    decreases DECK_SIZE - idx,
{
    if idx < DECK_SIZE {
        lemma_cards_from(field, idx + 1);
        let rest = cards_from(field, idx + 1);
        let all = cards_from(field, idx);
        assert(card_at(idx).in_deck() && card_at(idx).index() == idx);
        if has_bit(field, idx) {
            assert(all =~= seq![card_at(idx)] + rest);
            assert forall|i: int| 0 <= i < all.len() implies {
                let c = #[trigger] all[i];
                c.in_deck() && idx <= c.index() && has_bit(field, c.index())
            } by {
                if i > 0 {
                    assert(all[i] == rest[i - 1]);
                }
            }
            assert forall|i: int, j: int| 0 <= i < j < all.len() implies (#[trigger] all[i]).index()
                < (#[trigger] all[j]).index() by {
                assert(all[j] == rest[j - 1]);
                if i > 0 {
                    assert(all[i] == rest[i - 1]);
                }
            }
            assert forall|k: int| idx <= k < DECK_SIZE && has_bit(field, k) implies all.contains(
                #[trigger] card_at(k),
            ) by {
                if k == idx {
                    assert(all[0] == card_at(k));
                } else {
                    assert(rest.contains(card_at(k)));
                    let m = choose|m: int| 0 <= m < rest.len() && rest[m] == card_at(k);
                    assert(all[m + 1] == card_at(k));
                }
            }
        } else {
            assert(all =~= rest);
        }
    }
}

/// A cursor over a `CardSet`.
#[derive(Copy, Clone, Eq, PartialEq, Debug)]
pub struct CardSetIter {
    card_set: CardSet,
    idx: usize,
}

impl View for CardSetIter {
    type V = Seq<Card>;

    /// The cards that have not been handed out yet.
    closed spec fn view(&self) -> Seq<Card> {
        cards_from(self.card_set.card_field, self.idx as int)
    }
}

impl CardSetIter {
    #[verifier::type_invariant]
    pub closed spec fn wf(self) -> bool {
        self.card_set.wf() && self.idx <= DECK_SIZE
    }

    /// Hands out the next card of the set.
    pub fn next(&mut self) -> (r: Option<Card>)
        ensures
            old(self)@.len() == 0 ==> r is None && final(self)@ == old(self)@,
            old(self)@.len() > 0 ==> r == Some(old(self)@[0]) && final(self)@ == old(
                self,
            )@.drop_first(),
    {
        proof {
            use_type_invariant(&*self);
        }
        let set = self.card_set;
        let mut idx: usize = self.idx;
        while idx < NUM_RANKS * NUM_SUITS
            invariant
                idx <= DECK_SIZE,
                set == old(self).card_set,
                set.wf(),
                cards_from(set.card_field, idx as int) == old(self)@,
            decreases DECK_SIZE - idx,
        {
            assert(card_at(idx as int).index() == idx);
            if set.contains_index(idx) {
                let c = CardSet::card_from_index(idx);
                proof {
                    assert(old(self)@ =~= seq![card_at(idx as int)] + cards_from(
                        set.card_field,
                        idx + 1,
                    ));
                    assert(old(self)@.drop_first() =~= cards_from(set.card_field, idx + 1));
                }
                *self = CardSetIter { card_set: set, idx: idx + 1 };
                return Some(c);
            }
            idx = idx + 1;
        }
        *self = CardSetIter { card_set: set, idx };
        None
    }
}

} // verus!
