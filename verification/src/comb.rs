//! All the ways to pick some items out of a sequence, one at a time and in
//! dictionary order, with or without picking an item twice.

use vstd::prelude::*;

verus! {

/// A way to pick positions out of a source of `n` items: each position lies
/// in the source, and the positions rise from left to right. Without
/// replacement no position is picked twice.
pub open spec fn valid_selection(n: int, replacement: bool, sel: Seq<int>) -> bool {
    &&& forall|i: int| 0 <= i < sel.len() ==> 0 <= #[trigger] sel[i] < n
    &&& forall|i: int, j: int|
        0 <= i < j < sel.len() ==> if replacement {
            sel[i] <= sel[j]
        } else {
            sel[i] < sel[j]
        }
}

/// `a` and `b` agree before position `k`, where `a` is smaller.
pub open spec fn differ_at(a: Seq<int>, b: Seq<int>, k: int) -> bool {
    &&& 0 <= k < a.len()
    &&& a.len() == b.len()
    &&& a.take(k) == b.take(k)
    &&& a[k] < b[k]
}

/// `a` comes before `b` in dictionary order.
pub open spec fn lex_less(a: Seq<int>, b: Seq<int>) -> bool {
    exists|k: int| differ_at(a, b, k)
}

/// `first` is the selection of `p` positions that comes before every other;
/// it is `None` when there is no selection of `p` positions at all.
pub open spec fn is_first_selection(
    n: int,
    replacement: bool,
    p: nat,
    first: Option<Seq<int>>,
) -> bool {
    match first {
        Some(t) => {
            &&& t.len() == p
            &&& valid_selection(n, replacement, t)
            &&& forall|u: Seq<int>|
                u.len() == p && #[trigger] valid_selection(n, replacement, u) ==> u == t
                    || lex_less(t, u)
        },
        None => forall|u: Seq<int>|
            !(u.len() == p && #[trigger] valid_selection(n, replacement, u)),
    }
}

/// `next` is the selection that follows `sel` in dictionary order with no
/// other selection between them; it is `None` when `sel` is the last one.
pub open spec fn is_next_selection(
    n: int,
    replacement: bool,
    sel: Seq<int>,
    next: Option<Seq<int>>,
) -> bool {
    match next {
        Some(t) => {
            &&& t.len() == sel.len()
            &&& valid_selection(n, replacement, t)
            &&& lex_less(sel, t)
            &&& forall|u: Seq<int>|
                u.len() == sel.len() && #[trigger] valid_selection(n, replacement, u) && lex_less(
                    sel,
                    u,
                ) ==> u == t || lex_less(t, u)
        },
        None => forall|u: Seq<int>|
            u.len() == sel.len() && #[trigger] valid_selection(n, replacement, u) ==> !lex_less(
                sel,
                u,
            ),
    }
}

/// The items of `src` at the positions of `sel`.
pub open spec fn pick<T>(src: Seq<T>, sel: Seq<int>) -> Seq<T> {
    Seq::new(sel.len(), |i: int| src[sel[i]])
}

/// `items` are clones of the items of `src` at the positions of `sel`, in
/// that order. Of items whose clones are the items themselves, as those
/// of every type that is copied, they are `pick(src, sel)`.
pub open spec fn picked<T: Clone>(src: Seq<T>, sel: Seq<int>, items: Seq<T>) -> bool {
    &&& items.len() == sel.len()
    &&& forall|i: int| 0 <= i < sel.len() ==> cloned::<T>(src[sel[i]], #[trigger] items[i])
}

/// Positions held as machine integers, read as integers.
pub open spec fn positions(s: Seq<usize>) -> Seq<int> {
    Seq::new(s.len(), |i: int| s[i] as int)
}

/// Two different sequences of one length differ somewhere for the first time.
pub proof fn lemma_first_difference(a: Seq<int>, b: Seq<int>)
    requires
        a.len() == b.len(),
        a != b,
    ensures
        exists|k: int| 0 <= k < a.len() && a.take(k) == b.take(k) && #[trigger] a[k] != b[k],
    decreases a.len(),
{
    if a.len() == 0 {
        assert(a =~= b);
    } else {
        let a0 = a.drop_last();
        let b0 = b.drop_last();
        if a0 == b0 {
            let k = a.len() - 1;
            assert(a.take(k) =~= a0);
            assert(b.take(k) =~= b0);
            if a[k] == b[k] {
                assert(a =~= a0.push(a[k]));
                assert(b =~= b0.push(b[k]));
            }
            assert(0 <= k < a.len() && a.take(k) == b.take(k) && a[k] != b[k]);
        } else {
            lemma_first_difference(a0, b0);
            let k = choose|k: int|
                0 <= k < a0.len() && a0.take(k) == b0.take(k) && #[trigger] a0[k] != b0[k];
            assert(a.take(k) =~= a0.take(k));
            assert(b.take(k) =~= b0.take(k));
            assert(0 <= k < a.len() && a.take(k) == b.take(k) && a[k] != b[k]);
        }
    }
}

/// Dictionary order is total: of two different sequences of one length,
/// one comes before the other.
pub proof fn lemma_lex_total(a: Seq<int>, b: Seq<int>)
    requires
        a.len() == b.len(),
    ensures
        a == b || lex_less(a, b) || lex_less(b, a),
{
    if a != b {
        lemma_first_difference(a, b);
        let k = choose|k: int|
            0 <= k < a.len() && a.take(k) == b.take(k) && #[trigger] a[k] != b[k];
        if a[k] < b[k] {
            assert(differ_at(a, b, k));
        } else {
            assert(differ_at(b, a, k));
        }
    }
}

/// Dictionary order is strict: nothing comes before itself, and no two
/// sequences come before each other.
pub proof fn lemma_lex_asymmetric(a: Seq<int>, b: Seq<int>)
    requires
        lex_less(a, b),
    ensures
        a != b,
        !lex_less(b, a),
{
    let k = choose|k: int| differ_at(a, b, k);
    if lex_less(b, a) {
        let m = choose|m: int| differ_at(b, a, m);
        if k < m {
            assert(b.take(m)[k] == a.take(m)[k]);
        } else if m < k {
            assert(a.take(k)[m] == b.take(k)[m]);
        }
    }
}

/// In a selection without replacement, positions are at least as far apart
/// as their places.
proof fn lemma_gap(n: int, replacement: bool, u: Seq<int>, i: int, j: int)
    requires
        valid_selection(n, replacement, u),
        0 <= i <= j < u.len(),
    ensures
        replacement ==> u[j] >= u[i],
        !replacement ==> u[j] - u[i] >= j - i,
    decreases j - i,
{
    if i < j {
        lemma_gap(n, replacement, u, i, j - 1);
    }
}

/// The largest position that place `k` of a selection of `p` can hold.
spec fn limit(n: int, replacement: bool, p: int, k: int) -> int {
    if replacement {
        n - 1
    } else {
        n - (p - k)
    }
}

proof fn lemma_limit(n: int, replacement: bool, u: Seq<int>, k: int)
    requires
        valid_selection(n, replacement, u),
        0 <= k < u.len(),
    ensures
        u[k] <= limit(n, replacement, u.len() as int, k),
{
    lemma_gap(n, replacement, u, k, u.len() - 1);
}

/// The selection that follows `sel` when place `j` is the last one that can
/// still move up.
spec fn bump(replacement: bool, sel: Seq<int>, j: int) -> Seq<int> {
    Seq::new(
        sel.len(),
        |k: int|
            if k < j {
                sel[k]
            } else if replacement {
                sel[j] + 1
            } else {
                sel[j] + 1 + (k - j)
            },
    )
}

proof fn lemma_bump(n: int, replacement: bool, sel: Seq<int>, j: int)
    requires
        valid_selection(n, replacement, sel),
        0 <= j < sel.len(),
        sel[j] < limit(n, replacement, sel.len() as int, j),
        forall|k: int| j < k < sel.len() ==> sel[k] == limit(n, replacement, sel.len() as int, k),
    ensures
        is_next_selection(n, replacement, sel, Some(bump(replacement, sel, j))),
{
    let t = bump(replacement, sel, j);
    let p = sel.len() as int;
    assert(valid_selection(n, replacement, t)) by {
        assert forall|a: int, b: int| 0 <= a < b < t.len() implies if replacement {
            t[a] <= t[b]
        } else {
            t[a] < t[b]
        } by {
            if b < j {
            } else if a < j {
                assert(sel[a] <= sel[j]);
            }
        }
    }
    assert(differ_at(sel, t, j)) by {
        assert(sel.take(j) =~= t.take(j));
    }
    assert forall|u: Seq<int>|
        u.len() == sel.len() && #[trigger] valid_selection(n, replacement, u) && lex_less(
            sel,
            u,
        ) implies u == t || lex_less(t, u) by {
        let m = choose|m: int| differ_at(sel, u, m);
        lemma_limit(n, replacement, u, m);
        if m < j {
            assert(t.take(m) =~= u.take(m)) by {
                assert forall|i: int| 0 <= i < m implies t.take(m)[i] == u.take(m)[i] by {
                    assert(sel.take(m)[i] == u.take(m)[i]);
                }
            }
            assert(differ_at(t, u, m));
        } else {
            assert(m == j);
            assert(t.take(j) =~= u.take(j)) by {
                assert forall|i: int| 0 <= i < j implies t.take(j)[i] == u.take(j)[i] by {
                    assert(sel.take(j)[i] == u.take(j)[i]);
                }
            }
            if u[j] > t[j] {
                assert(differ_at(t, u, j));
            } else if u != t {
                lemma_first_difference(t, u);
                let k = choose|k: int|
                    0 <= k < t.len() && t.take(k) == u.take(k) && #[trigger] t[k] != u[k];
                if k < j {
                    assert(t.take(j)[k] == u.take(j)[k]);
                }
                assert(k > j);
                lemma_gap(n, replacement, u, j, k);
                assert(differ_at(t, u, k));
            }
        }
    }
}

proof fn lemma_last(n: int, replacement: bool, sel: Seq<int>)
    requires
        valid_selection(n, replacement, sel),
        forall|k: int| 0 <= k < sel.len() ==> sel[k] == limit(n, replacement, sel.len() as int, k),
    ensures
        is_next_selection(n, replacement, sel, None),
{
    assert forall|u: Seq<int>|
        u.len() == sel.len() && #[trigger] valid_selection(n, replacement, u) implies !lex_less(
            sel,
            u,
        ) by {
        if lex_less(sel, u) {
            let m = choose|m: int| differ_at(sel, u, m);
            lemma_limit(n, replacement, u, m);
        }
    }
}

/// The selection of `p` positions that comes first.
spec fn lowest(replacement: bool, p: nat) -> Seq<int> {
    Seq::new(
        p,
        |k: int|
            if replacement {
                0
            } else {
                k
            },
    )
}

proof fn lemma_lowest(n: int, replacement: bool, p: nat)
    requires
        0 <= n,
    ensures
        (p == 0 || (replacement && n > 0) || (!replacement && p <= n)) ==> is_first_selection(
            n,
            replacement,
            p,
            Some(lowest(replacement, p)),
        ),
        !(p == 0 || (replacement && n > 0) || (!replacement && p <= n)) ==> is_first_selection(
            n,
            replacement,
            p,
            None,
        ),
{
    let t = lowest(replacement, p);
    if p == 0 || (replacement && n > 0) || (!replacement && p <= n) {
        assert(valid_selection(n, replacement, t));
        assert forall|u: Seq<int>|
            u.len() == p && #[trigger] valid_selection(n, replacement, u) implies u == t
            || lex_less(t, u) by {
            if u != t {
                lemma_first_difference(t, u);
                let k = choose|k: int|
                    0 <= k < t.len() && t.take(k) == u.take(k) && #[trigger] t[k] != u[k];
                lemma_gap(n, replacement, u, 0, k);
                assert(differ_at(t, u, k));
            }
        }
    } else {
        assert forall|u: Seq<int>|
            !(u.len() == p && #[trigger] valid_selection(n, replacement, u)) by {
            if u.len() == p && valid_selection(n, replacement, u) {
                lemma_gap(n, replacement, u, 0, p - 1);
                assert(0 <= u[0]);
                assert(u[p - 1] < n);
            }
        }
    }
}

/// A selection read as a number in base `n + 1`.
spec fn weight(n: int, sel: Seq<int>) -> int
    decreases sel.len(),
{
    if sel.len() == 0 {
        0
    } else {
        weight(n, sel.drop_last()) * (n + 1) + sel.last()
    }
}

/// The largest number that `len` digits can make in base `n + 1`.
spec fn ceiling(n: int, len: nat) -> int
    decreases len,
{
    if len == 0 {
        0
    } else {
        ceiling(n, (len - 1) as nat) * (n + 1) + n
    }
}

proof fn lemma_weight_bound(n: int, sel: Seq<int>)
    requires
        0 <= n,
        forall|i: int| 0 <= i < sel.len() ==> 0 <= #[trigger] sel[i] <= n,
    ensures
        0 <= weight(n, sel) <= ceiling(n, sel.len()),
    decreases sel.len(),
{
    if sel.len() > 0 {
        let head = sel.drop_last();
        lemma_weight_bound(n, head);
        let w = weight(n, head);
        let c = ceiling(n, head.len());
        assert(w * (n + 1) <= c * (n + 1)) by (nonlinear_arith)
            requires
                0 <= w <= c,
                0 <= n,
        ;
        assert(0 <= w * (n + 1)) by (nonlinear_arith)
            requires
                0 <= w,
                0 <= n,
        ;
    }
}

proof fn lemma_weight_less(n: int, a: Seq<int>, b: Seq<int>, k: int)
    requires
        0 <= n,
        differ_at(a, b, k),
        forall|i: int| 0 <= i < a.len() ==> 0 <= #[trigger] a[i] <= n,
        forall|i: int| 0 <= i < b.len() ==> 0 <= #[trigger] b[i] <= n,
    ensures
        weight(n, a) < weight(n, b),
    decreases a.len(),
{
    let a0 = a.drop_last();
    let b0 = b.drop_last();
    if k == a.len() - 1 {
        assert(a.take(k) =~= a0);
        assert(b.take(k) =~= b0);
    } else {
        assert(a0.take(k) =~= a.take(k));
        assert(b0.take(k) =~= b.take(k));
        assert(differ_at(a0, b0, k));
        lemma_weight_less(n, a0, b0, k);
        let wa = weight(n, a0);
        let wb = weight(n, b0);
        assert((wa + 1) * (n + 1) <= wb * (n + 1)) by (nonlinear_arith)
            requires
                wa + 1 <= wb,
                0 <= n,
        ;
        assert((wa + 1) * (n + 1) == wa * (n + 1) + n + 1) by (nonlinear_arith);
    }
}

/// The last place below `k` whose position can still move up, or -1 where
/// none can.
spec fn pivot(n: int, replacement: bool, sel: Seq<int>, k: int) -> int
    decreases k,
{
    if k <= 0 {
        -1
    } else if sel[k - 1] < limit(n, replacement, sel.len() as int, k - 1) {
        k - 1
    } else {
        pivot(n, replacement, sel, k - 1)
    }
}

proof fn lemma_pivot(n: int, replacement: bool, sel: Seq<int>, k: int)
    requires
        valid_selection(n, replacement, sel),
        0 <= k <= sel.len(),
    ensures
        -1 <= pivot(n, replacement, sel, k) < k,
        pivot(n, replacement, sel, k) >= 0 ==> sel[pivot(n, replacement, sel, k)] < limit(
            n,
            replacement,
            sel.len() as int,
            pivot(n, replacement, sel, k),
        ),
        forall|i: int|
            pivot(n, replacement, sel, k) < i < k ==> sel[i] == limit(
                n,
                replacement,
                sel.len() as int,
                i,
            ),
    decreases k,
{
    if k > 0 {
        lemma_limit(n, replacement, sel, k - 1);
        lemma_pivot(n, replacement, sel, k - 1);
    }
}

/// The selection of `p` positions that comes first, if there is any.
pub closed spec fn first_selection(n: int, replacement: bool, p: nat) -> Option<Seq<int>> {
    if p == 0 || (replacement && n > 0) || (!replacement && p <= n) {
        Some(lowest(replacement, p))
    } else {
        None
    }
}

/// The selection that follows `sel` in dictionary order, if there is any.
pub closed spec fn successor(n: int, replacement: bool, sel: Seq<int>) -> Option<Seq<int>> {
    let j = pivot(n, replacement, sel, sel.len() as int);
    if j < 0 {
        None
    } else {
        Some(bump(replacement, sel, j))
    }
}

/// `first_selection` is the selection that comes before every other.
pub proof fn lemma_first_selection(n: int, replacement: bool, p: nat)
    requires
        0 <= n,
    ensures
        is_first_selection(n, replacement, p, first_selection(n, replacement, p)),
{
    lemma_lowest(n, replacement, p);
}

/// `successor` is the selection that follows with none between.
pub proof fn lemma_successor(n: int, replacement: bool, sel: Seq<int>)
    requires
        valid_selection(n, replacement, sel),
    ensures
        is_next_selection(n, replacement, sel, successor(n, replacement, sel)),
{
    lemma_pivot(n, replacement, sel, sel.len() as int);
    let j = pivot(n, replacement, sel, sel.len() as int);
    if j < 0 {
        lemma_last(n, replacement, sel);
    } else {
        lemma_bump(n, replacement, sel, j);
    }
}

/// No selection is followed by two.
pub proof fn lemma_next_unique(
    n: int,
    replacement: bool,
    sel: Seq<int>,
    a: Option<Seq<int>>,
    b: Option<Seq<int>>,
)
    requires
        is_next_selection(n, replacement, sel, a),
        is_next_selection(n, replacement, sel, b),
    ensures
        a == b,
{
    match (a, b) {
        (Some(s), Some(t)) => {
            assert(valid_selection(n, replacement, s) && valid_selection(n, replacement, t));
            if s != t {
                assert(lex_less(t, s));
                assert(lex_less(s, t));
                lemma_lex_asymmetric(s, t);
            }
        },
        (Some(s), None) => {
            assert(valid_selection(n, replacement, s));
        },
        (None, Some(t)) => {
            assert(valid_selection(n, replacement, t));
        },
        (None, None) => {},
    }
}

/// A number that falls from each selection to the one that follows it.
pub closed spec fn steps_left(n: int, from: Option<Seq<int>>) -> nat {
    match from {
        Some(sel) => (ceiling(n, sel.len()) - weight(n, sel) + 1) as nat,
        None => 0,
    }
}

proof fn lemma_steps_fall(n: int, replacement: bool, sel: Seq<int>)
    requires
        valid_selection(n, replacement, sel),
    ensures
        steps_left(n, successor(n, replacement, sel)) < steps_left(n, Some(sel)),
{
    lemma_successor(n, replacement, sel);
    if sel.len() > 0 {
        assert(0 <= sel[0] < n);
        lemma_weight_bound(n, sel);
        match successor(n, replacement, sel) {
            Some(t) => {
                let k = choose|k: int| differ_at(sel, t, k);
                lemma_weight_bound(n, t);
                lemma_weight_less(n, sel, t, k);
            },
            None => {},
        }
    } else {
        match successor(n, replacement, sel) {
            Some(t) => {
                let k = choose|k: int| differ_at(sel, t, k);
            },
            None => {},
        }
    }
}

/// `from` and every selection after it, in dictionary order.
pub open spec fn walk(n: int, replacement: bool, from: Option<Seq<int>>) -> Seq<Seq<int>>
    decreases steps_left(n, from),
    via walk_decreases
{
    match from {
        Some(sel) => if valid_selection(n, replacement, sel) {
            seq![sel] + walk(n, replacement, successor(n, replacement, sel))
        } else {
            Seq::empty()
        },
        None => Seq::empty(),
    }
}

#[via_fn]
proof fn walk_decreases(n: int, replacement: bool, from: Option<Seq<int>>) {
    match from {
        Some(sel) => {
            if valid_selection(n, replacement, sel) {
                lemma_steps_fall(n, replacement, sel);
            }
        },
        None => {},
    }
}

/// Every selection of `p` positions out of `n`, in dictionary order.
pub open spec fn selections(n: int, replacement: bool, p: nat) -> Seq<Seq<int>> {
    walk(n, replacement, first_selection(n, replacement, p))
}

/// The sum of what `f` gives for each of `sels`.
pub open spec fn sum_over(sels: Seq<Seq<int>>, f: spec_fn(Seq<int>) -> int) -> int
    decreases sels.len(),
{
    if sels.len() == 0 {
        0
    } else {
        f(sels.first()) + sum_over(sels.drop_first(), f)
    }
}

/// A sum over a walk is what the first selection gives and the sum over
/// the rest of the walk.
pub proof fn lemma_sum_over_walk(
    n: int,
    replacement: bool,
    sel: Seq<int>,
    f: spec_fn(Seq<int>) -> int,
)
    requires
        valid_selection(n, replacement, sel),
    ensures
        sum_over(walk(n, replacement, Some(sel)), f) == f(sel) + sum_over(
            walk(n, replacement, successor(n, replacement, sel)),
            f,
        ),
        sum_over(walk(n, replacement, None), f) == 0,
{
    let all = walk(n, replacement, Some(sel));
    let rest = walk(n, replacement, successor(n, replacement, sel));
    assert(all =~= seq![sel] + rest);
    assert(all.drop_first() =~= rest);
    assert(all.first() == sel);
}

/// How many sequences of `len` positions out of `n + 1` there are: no walk
/// takes more steps.
pub open spec fn span(n: int, len: nat) -> int
    decreases len,
{
    if len == 0 {
        1
    } else {
        span(n, (len - 1) as nat) * (n + 1)
    }
}

proof fn lemma_ceiling(n: int, len: nat)
    ensures
        ceiling(n, len) + 1 == span(n, len),
    decreases len,
{
    if len > 0 {
        lemma_ceiling(n, (len - 1) as nat);
        let c = ceiling(n, (len - 1) as nat);
        assert((c + 1) * (n + 1) == c * (n + 1) + n + 1) by (nonlinear_arith);
    }
}

/// A span grows with the positions and with the length.
pub proof fn lemma_span_grows(n: int, m: int, len: nat, most: nat)
    requires
        0 <= n <= m,
        len <= most,
    ensures
        0 < span(n, len) <= span(m, most),
    decreases most,
{
    if most > 0 {
        if len == most {
            lemma_span_grows(n, m, (len - 1) as nat, (most - 1) as nat);
            let a = span(n, (len - 1) as nat);
            let b = span(m, (most - 1) as nat);
            assert(0 < a * (n + 1) <= b * (m + 1)) by (nonlinear_arith)
                requires
                    0 < a <= b,
                    0 <= n <= m,
            ;
        } else {
            lemma_span_grows(n, m, len, (most - 1) as nat);
            let a = span(n, len);
            let b = span(m, (most - 1) as nat);
            assert(a <= b * (m + 1)) by (nonlinear_arith)
                requires
                    0 < a <= b,
                    0 <= m,
            ;
        }
    }
}

/// All the ways to pick `p` items out of a source, handed out one at a
/// time in dictionary order of their positions. The state is the stack of
/// positions of the selection that is handed out next.
pub struct Combinations<T> {
    p: usize,
    replacement: bool,
    src: Vec<T>,
    stack: Vec<usize>,
    live: bool,
}

impl<T: Clone> Combinations<T> {
    /// The stack holds a selection as long as there is one to hand out.
    pub closed spec fn wf(&self) -> bool {
        self.live ==> {
            &&& self.stack@.len() == self.p
            &&& valid_selection(self.src@.len() as int, self.replacement, positions(self.stack@))
        }
    }

    /// The items that are picked from.
    pub closed spec fn source(&self) -> Seq<T> {
        self.src@
    }

    /// How many items each selection holds.
    pub closed spec fn size(&self) -> nat {
        self.p as nat
    }

    /// Whether an item may be picked more than once.
    pub closed spec fn with_replacement(&self) -> bool {
        self.replacement
    }

    /// The positions of the selection that `next` hands out, if any is left.
    pub closed spec fn pending(&self) -> Option<Seq<int>> {
        if self.live {
            Some(positions(self.stack@))
        } else {
            None
        }
    }

    /// A number that falls with every selection handed out.
    pub closed spec fn remaining(&self) -> nat {
        if self.live {
            (ceiling(self.src@.len() as int, self.p as nat) - weight(
                self.src@.len() as int,
                positions(self.stack@),
            ) + 1) as nat
        } else {
            0
        }
    }

    /// What a well-formed generator holds in store.
    pub proof fn lemma_pending(&self)
        requires
            self.wf(),
        ensures
            self.pending() matches Some(sel) ==> sel.len() == self.size() && valid_selection(
                self.source().len() as int,
                self.with_replacement(),
                sel,
            ),
            self.pending() is Some <==> self.remaining() > 0,
    {
        if self.live {
            let n = self.src@.len() as int;
            let sel = positions(self.stack@);
            lemma_weight_bound(n, sel);
        }
    }

    /// No generator takes more steps than there are sequences of
    /// positions.
    pub proof fn lemma_remaining(&self)
        requires
            self.wf(),
        ensures
            self.remaining() <= span(self.source().len() as int, self.size()),
    {
        let n = self.src@.len() as int;
        lemma_ceiling(n, self.p as nat);
        lemma_span_grows(n, n, self.p as nat, self.p as nat);
        if self.live {
            lemma_weight_bound(n, positions(self.stack@));
        }
    }

    fn start(src: Vec<T>, p: usize, replacement: bool) -> (c: Combinations<T>)
        ensures
            c.wf(),
            c.source() == src@,
            c.size() == p,
            c.with_replacement() == replacement,
            is_first_selection(src@.len() as int, replacement, p as nat, c.pending()),
            c.pending() == first_selection(src@.len() as int, replacement, p as nat),
    {
        let n = src.len();
        let live = p == 0 || (if replacement {
            n > 0
        } else {
            p <= n
        });
        let mut stack: Vec<usize> = Vec::new();
        if live {
            let mut k: usize = 0;
            while k < p
                invariant
                    k <= p,
                    !replacement ==> p <= n,
                    stack@.len() == k,
                    forall|i: int|
                        0 <= i < k ==> #[trigger] stack@[i] == if replacement {
                            0
                        } else {
                            i
                        },
                decreases p - k,
            {
                stack.push(if replacement {
                    0
                } else {
                    k
                });
                k = k + 1;
            }
        }
        proof {
            lemma_lowest(n as int, replacement, p as nat);
            if live {
                assert(positions(stack@) =~= lowest(replacement, p as nat));
            }
        }
        Combinations { p, replacement, src, stack, live }
    }

    /// Hands out the next selection, and moves on to the one that follows
    /// it in dictionary order.
    pub fn next(&mut self) -> (r: Option<Vec<T>>)
        requires
            old(self).wf(),
        ensures
            final(self).wf(),
            final(self).source() == old(self).source(),
            final(self).size() == old(self).size(),
            final(self).with_replacement() == old(self).with_replacement(),
            old(self).pending() is None ==> r is None && final(self).pending() is None,
            old(self).pending() matches Some(sel) ==> {
                &&& r matches Some(v)
                &&& picked(old(self).source(), sel, v@)
                &&& is_next_selection(
                    old(self).source().len() as int,
                    old(self).with_replacement(),
                    sel,
                    final(self).pending(),
                )
                &&& final(self).pending() == successor(
                    old(self).source().len() as int,
                    old(self).with_replacement(),
                    sel,
                )
                &&& final(self).remaining() < old(self).remaining()
            },
    {
        if !self.live {
            return None;
        }
        let n = self.src.len();
        let p = self.p;
        let replacement = self.replacement;
        let ghost sel = positions(self.stack@);
        let mut combo: Vec<T> = Vec::new();
        let mut i: usize = 0;
        while i < p
            invariant
                i <= p,
                p == self.stack@.len(),
                n == self.src@.len(),
                sel == positions(self.stack@),
                valid_selection(n as int, replacement, sel),
                combo@.len() == i,
                forall|k: int| 0 <= k < i ==> cloned::<T>(self.src@[sel[k]], #[trigger] combo@[k]),
            decreases p - i,
        {
            assert(0 <= sel[i as int] < n);
            let pos = self.stack[i];
            let ghost before = combo@;
            let item = self.src[pos].clone();
            combo.push(item);
            proof {
                assert forall|k: int| 0 <= k < i + 1 implies cloned::<T>(
                    self.src@[sel[k]],
                    #[trigger] combo@[k],
                ) by {
                    if k < i {
                        assert(combo@[k] == before[k]);
                    }
                }
            }
            i = i + 1;
        }
        let ghost items = combo@;
        let ghost source = self.src@;
        assert(picked(source, sel, items));
        // The last place that can still move up.
        let mut j: usize = p;
        let mut found = false;
        while j > 0 && !found
            invariant
                j <= p,
                p == self.stack@.len(),
                n == self.src@.len(),
                sel == positions(self.stack@),
                valid_selection(n as int, replacement, sel),
                found ==> j < p && sel[j as int] < limit(n as int, replacement, p as int, j as int),
                forall|k: int|
                    (if found {
                        j < k
                    } else {
                        j <= k
                    }) && k < p ==> sel[k] == limit(n as int, replacement, p as int, k),
            decreases j + (if found { 0int } else { 1int }),
        {
            let k = j - 1;
            proof {
                lemma_limit(n as int, replacement, sel, k as int);
                assert(0 <= sel[k as int] < n);
            }
            let top: usize = if replacement {
                n - 1
            } else {
                n - (p - k)
            };
            if self.stack[k] < top {
                found = true;
                j = k;
            } else {
                j = k;
            }
        }
        if !found {
            proof {
                lemma_last(n as int, replacement, sel);
                lemma_weight_bound(n as int, sel);
                lemma_successor(n as int, replacement, sel);
                lemma_next_unique(
                    n as int,
                    replacement,
                    sel,
                    None,
                    successor(n as int, replacement, sel),
                );
            }
            self.live = false;
            return Some(combo);
        }
        proof {
            lemma_bump(n as int, replacement, sel, j as int);
        }
        let ghost target = bump(replacement, sel, j as int);
        let base: usize = self.stack[j] + 1;
        let mut k: usize = j;
        while k < p
            invariant
                j <= k <= p,
                p == self.stack@.len(),
                n == self.src@.len(),
                self.live,
                self.p == p,
                self.replacement == replacement,
                self.src@ == old(self).src@,
                sel.len() == p,
                base == sel[j as int] + 1,
                base <= limit(n as int, replacement, p as int, j as int),
                target == bump(replacement, sel, j as int),
                forall|i: int| 0 <= i < k ==> (#[trigger] self.stack@[i]) as int == target[i],
                forall|i: int| k <= i < p ==> (#[trigger] self.stack@[i]) as int == sel[i],
            decreases p - k,
        {
            let v: usize = if replacement {
                base
            } else {
                base + (k - j)
            };
            self.stack.set(k, v);
            k = k + 1;
        }
        proof {
            assert(positions(self.stack@) =~= target);
            let a = old(self).stack@;
            lemma_weight_bound(n as int, sel);
            lemma_weight_bound(n as int, target);
            assert(differ_at(sel, target, j as int)) by {
                assert(sel.take(j as int) =~= target.take(j as int));
            }
            lemma_weight_less(n as int, sel, target, j as int);
            lemma_successor(n as int, replacement, sel);
            lemma_next_unique(
                n as int,
                replacement,
                sel,
                Some(target),
                successor(n as int, replacement, sel),
            );
        }
        Some(combo)
    }

    /// Every selection that is left, in the order in which `next` hands
    /// them out.
    pub fn collect(&mut self) -> (all: Vec<Vec<T>>)
        requires
            old(self).wf(),
        ensures
            final(self).wf(),
            final(self).pending() is None,
            final(self).source() == old(self).source(),
            final(self).size() == old(self).size(),
            final(self).with_replacement() == old(self).with_replacement(),
            all@.len() == walk(
                old(self).source().len() as int,
                old(self).with_replacement(),
                old(self).pending(),
            ).len(),
            forall|i: int|
                0 <= i < all@.len() ==> picked(
                    old(self).source(),
                    walk(
                        old(self).source().len() as int,
                        old(self).with_replacement(),
                        old(self).pending(),
                    )[i],
                    (#[trigger] all@[i])@,
                ),
    {
        let mut all: Vec<Vec<T>> = Vec::new();
        let ghost n = self.src@.len() as int;
        let ghost whole = walk(n, self.replacement, self.pending());
        let ghost mut done: Seq<Seq<int>> = Seq::empty();
        proof {
            assert(whole =~= done + walk(n, self.replacement, self.pending()));
        }
        loop
            invariant
                self.wf(),
                self.source() == old(self).source(),
                self.size() == old(self).size(),
                self.with_replacement() == old(self).with_replacement(),
                n == old(self).source().len(),
                whole == walk(n, old(self).with_replacement(), old(self).pending()),
                whole == done + walk(n, self.with_replacement(), self.pending()),
                all@.len() == done.len(),
                forall|i: int|
                    0 <= i < all@.len() ==> picked(old(self).source(), done[i], (#[trigger] all@[i])@),
            decreases self.remaining(),
        {
            proof {
                self.lemma_pending();
            }
            let ghost pending = self.pending();
            let ghost before = all@;
            match self.next() {
                Some(v) => {
                    all.push(v);
                    proof {
                        let sel = pending->Some_0;
                        let rest = walk(n, self.with_replacement(), self.pending());
                        assert(walk(n, self.with_replacement(), pending) =~= seq![sel] + rest);
                        assert(whole =~= done.push(sel) + rest);
                        done = done.push(sel);
                        assert forall|i: int| 0 <= i < all@.len() implies picked(
                            old(self).source(),
                            done[i],
                            (#[trigger] all@[i])@,
                        ) by {
                            if i < before.len() {
                                assert(all@[i] == before[i]);
                            }
                        }
                    }
                },
                None => {
                    proof {
                        assert(whole =~= done);
                    }
                    return all;
                },
            }
        }
    }
}

/// Every way to pick `p` different items of `src`, each selection in the
/// order of the source.
pub fn combinations<T: Clone>(src: Vec<T>, p: usize) -> (c: Combinations<T>)
    ensures
        c.wf(),
        c.source() == src@,
        c.size() == p,
        !c.with_replacement(),
        is_first_selection(src@.len() as int, false, p as nat, c.pending()),
        c.pending() == first_selection(src@.len() as int, false, p as nat),
{
    Combinations::start(src, p, false)
}

/// Every way to pick `p` items of `src` where an item may be picked more
/// than once, each selection in the order of the source.
pub fn combinations_with_replacement<T: Clone>(src: Vec<T>, p: usize) -> (c: Combinations<T>)
    ensures
        c.wf(),
        c.source() == src@,
        c.size() == p,
        c.with_replacement(),
        is_first_selection(src@.len() as int, true, p as nat, c.pending()),
        c.pending() == first_selection(src@.len() as int, true, p as nat),
{
    Combinations::start(src, p, true)
}

/// Walking the selections in order leaves none out. If something holds of
/// every selection before `sel` and of `sel` itself, then it holds of every
/// selection before the one that follows `sel`, and of all of them when
/// `sel` is the last.
pub proof fn lemma_walk_covers(
    n: int,
    replacement: bool,
    sel: Seq<int>,
    next: Option<Seq<int>>,
    u: Seq<int>,
)
    requires
        valid_selection(n, replacement, sel),
        is_next_selection(n, replacement, sel, next),
        valid_selection(n, replacement, u),
        u.len() == sel.len(),
        next matches Some(t) ==> lex_less(u, t),
    ensures
        u == sel || lex_less(u, sel),
{
    lemma_lex_total(u, sel);
    if lex_less(sel, u) {
        match next {
            Some(t) => {
                lemma_lex_asymmetric(u, t);
            },
            None => {},
        }
    }
}


/// Dictionary order carries over: what comes before something that comes
/// before a third comes before the third.
pub proof fn lemma_lex_transitive(a: Seq<int>, b: Seq<int>, c: Seq<int>)
    requires
        lex_less(a, b),
        lex_less(b, c),
    ensures
        lex_less(a, c),
{
    let i = choose|i: int| differ_at(a, b, i);
    let j = choose|j: int| differ_at(b, c, j);
    let k = if i < j {
        i
    } else {
        j
    };
    assert(a.take(k) =~= c.take(k)) by {
        assert forall|m: int| 0 <= m < k implies a.take(k)[m] == c.take(k)[m] by {
            assert(a.take(i)[m] == b.take(i)[m]);
            assert(b.take(j)[m] == c.take(j)[m]);
        }
    }
    if i < j {
        assert(b.take(j)[i] == c.take(j)[i]);
    } else if j < i {
        assert(a.take(i)[j] == b.take(i)[j]);
    }
    assert(differ_at(a, c, k));
}

/// A walk holds selections only, each after the one from which the walk
/// set out, and each before those that follow it.
pub proof fn lemma_walk_rises(n: int, replacement: bool, sel: Seq<int>)
    requires
        valid_selection(n, replacement, sel),
    ensures
        forall|i: int|
            0 <= i < walk(n, replacement, Some(sel)).len() ==> {
                let u = #[trigger] walk(n, replacement, Some(sel))[i];
                &&& u.len() == sel.len()
                &&& valid_selection(n, replacement, u)
                &&& i == 0 ==> u == sel
                &&& i > 0 ==> lex_less(sel, u)
            },
        forall|i: int, j: int|
            0 <= i < j < walk(n, replacement, Some(sel)).len() ==> lex_less(
                #[trigger] walk(n, replacement, Some(sel))[i],
                #[trigger] walk(n, replacement, Some(sel))[j],
            ),
    decreases steps_left(n, Some(sel)),
{
    let all = walk(n, replacement, Some(sel));
    let rest = walk(n, replacement, successor(n, replacement, sel));
    assert(all =~= seq![sel] + rest);
    lemma_successor(n, replacement, sel);
    lemma_steps_fall(n, replacement, sel);
    match successor(n, replacement, sel) {
        Some(t) => {
            lemma_walk_rises(n, replacement, t);
            assert forall|i: int| 0 <= i < all.len() implies {
                let u = #[trigger] all[i];
                &&& u.len() == sel.len()
                &&& valid_selection(n, replacement, u)
                &&& i == 0 ==> u == sel
                &&& i > 0 ==> lex_less(sel, u)
            } by {
                if i > 0 {
                    let u = rest[i - 1];
                    assert(all[i] == u);
                    if i > 1 {
                        lemma_lex_transitive(sel, t, u);
                    }
                }
            }
            assert forall|i: int, j: int| 0 <= i < j < all.len() implies lex_less(
                #[trigger] all[i],
                #[trigger] all[j],
            ) by {
                assert(all[j] == rest[j - 1]);
                if i > 0 {
                    assert(all[i] == rest[i - 1]);
                }
            }
        },
        None => {
            assert(rest =~= Seq::<Seq<int>>::empty());
        },
    }
}

/// A walk leaves out no selection that comes after the one from which it
/// set out.
pub proof fn lemma_walk_complete(n: int, replacement: bool, sel: Seq<int>, u: Seq<int>)
    requires
        valid_selection(n, replacement, sel),
        valid_selection(n, replacement, u),
        u.len() == sel.len(),
        u == sel || lex_less(sel, u),
    ensures
        walk(n, replacement, Some(sel)).contains(u),
    decreases steps_left(n, Some(sel)),
{
    let all = walk(n, replacement, Some(sel));
    let rest = walk(n, replacement, successor(n, replacement, sel));
    assert(all =~= seq![sel] + rest);
    if u == sel {
        assert(all[0] == u);
    } else {
        lemma_successor(n, replacement, sel);
        lemma_steps_fall(n, replacement, sel);
        match successor(n, replacement, sel) {
            Some(t) => {
                lemma_walk_complete(n, replacement, t, u);
                let i = choose|i: int| 0 <= i < rest.len() && rest[i] == u;
                assert(all[i + 1] == u);
            },
            None => {},
        }
    }
}

/// The selections of `p` positions out of `n` are all there, each once,
/// in dictionary order.
pub proof fn lemma_selections(n: int, replacement: bool, p: nat)
    requires
        0 <= n,
    ensures
        forall|u: Seq<int>|
            u.len() == p && #[trigger] valid_selection(n, replacement, u) ==> selections(
                n,
                replacement,
                p,
            ).contains(u),
        forall|i: int|
            0 <= i < selections(n, replacement, p).len() ==> (#[trigger] selections(
                n,
                replacement,
                p,
            )[i]).len() == p && valid_selection(n, replacement, selections(n, replacement, p)[i]),
        forall|i: int, j: int|
            0 <= i < j < selections(n, replacement, p).len() ==> lex_less(
                #[trigger] selections(n, replacement, p)[i],
                #[trigger] selections(n, replacement, p)[j],
            ),
{
    lemma_first_selection(n, replacement, p);
    match first_selection(n, replacement, p) {
        Some(t) => {
            lemma_walk_rises(n, replacement, t);
            assert forall|u: Seq<int>|
                u.len() == p && #[trigger] valid_selection(n, replacement, u) implies selections(
                n,
                replacement,
                p,
            ).contains(u) by {
                lemma_walk_complete(n, replacement, t, u);
            }
        },
        None => {},
    }
}

/// There is one way to pick nothing: the empty selection.
pub proof fn lemma_pick_nothing(n: int, replacement: bool)
    ensures
        selections(n, replacement, 0) == seq![Seq::<int>::empty()],
{
    let none = lowest(replacement, 0);
    assert(none =~= Seq::<int>::empty());
    assert(valid_selection(n, replacement, none));
    assert(successor(n, replacement, none) is None);
    assert(walk(n, replacement, None) =~= Seq::<Seq<int>>::empty());
    assert(walk(n, replacement, Some(none)) =~= seq![none]);
}

/// Out of too few items nothing can be picked: not without replacement
/// more items than there are, and not from nothing.
pub proof fn lemma_pick_too_many(n: int, replacement: bool, p: nat)
    requires
        p > 0,
        if replacement {
            n <= 0
        } else {
            p > n
        },
    ensures
        selections(n, replacement, p).len() == 0,
{
}

/// Of enough items some can be picked: without replacement no more than
/// there are, and with replacement out of any that there are.
pub proof fn lemma_pick_some(n: int, replacement: bool, p: nat)
    requires
        0 <= n,
        if replacement {
            n > 0 || p == 0
        } else {
            p <= n
        },
    ensures
        selections(n, replacement, p).len() > 0,
{
    lemma_lowest(n, replacement, p);
    let first = lowest(replacement, p);
    assert(first_selection(n, replacement, p) == Some(first));
    assert(valid_selection(n, replacement, first));
    let rest = walk(n, replacement, successor(n, replacement, first));
    assert(walk(n, replacement, Some(first)) =~= seq![first] + rest);
}

/// A sum over some selections of what is above nothing is above nothing.
pub proof fn lemma_sum_over_some(sels: Seq<Seq<int>>, f: spec_fn(Seq<int>) -> int)
    requires
        sels.len() > 0,
        forall|i: int| 0 <= i < sels.len() ==> f(#[trigger] sels[i]) > 0,
    ensures
        sum_over(sels, f) > 0,
    decreases sels.len(),
{
    let rest = sels.drop_first();
    assert(f(sels[0]) > 0);
    if rest.len() > 0 {
        assert forall|i: int| 0 <= i < rest.len() implies f(#[trigger] rest[i]) > 0 by {
            assert(rest[i] == sels[i + 1]);
        }
        lemma_sum_over_some(rest, f);
    }
}

/// A selection without replacement picks no more positions than the
/// source has.
pub proof fn lemma_selection_fits(n: int, sel: Seq<int>)
    requires
        valid_selection(n, false, sel),
        sel.len() > 0,
    ensures
        sel.len() <= n,
{
    lemma_gap(n, false, sel, 0, sel.len() - 1);
}

} // verus!
