//! The parity test of the sliding puzzle.
//!
//! The test counts, over the tiles in row-major order, the pairs that stand
//! in rising order, and adds the number of the blank's row. No move changes
//! whether that sum is even, and for the solved board it is: an order that
//! fails the test can never be brought to the goal.

use vstd::prelude::*;
use vstd::seq_lib::group_to_multiset_ensures;

verus! {

/// The fifteen tiles in solved order: 1 to 15.
pub open spec fn goal_tiles() -> Seq<u32> {
    Seq::new(15, |i: int| (i + 1) as u32)
}

/// Fifteen tiles that hold each of 1 to 15 once, in any order.
pub open spec fn is_shuffle(tiles: Seq<u32>) -> bool {
    &&& tiles.len() == 15
    &&& tiles.no_duplicates()
    &&& forall|i: int| 0 <= i < 15 ==> 1 <= #[trigger] tiles[i] <= 15
}

/// How many values greater than `v` stand in `s` somewhere after a `v`.
pub open spec fn later_greater(s: Seq<u32>, v: u32) -> nat
    decreases s.len(),
{
    if s.len() == 0 {
        0
    } else {
        later_greater(s.drop_last(), v) + if s.last() > v && s.drop_last().contains(v) {
            1nat
        } else {
            0nat
        }
    }
}

/// The sum of `later_greater(s, v)` over the values `v` from 1 to `top`.
pub open spec fn ordered_pairs(s: Seq<u32>, top: nat) -> nat
    decreases top,
{
    if top == 0 {
        0
    } else {
        ordered_pairs(s, (top - 1) as nat) + later_greater(s, top as u32)
    }
}

/// The parity test: the count over the values 1 to 15, plus the number of
/// the blank's row, is even. Rows are numbered from 0 at the top.
pub open spec fn solvable(s: Seq<u32>, zero_row: nat) -> bool {
    (ordered_pairs(s, 15) + zero_row) % 2 == 0
}

/// `s` with the values in the places `i` and `i + 1` exchanged.
pub open spec fn exchanged(s: Seq<u32>, i: int) -> Seq<u32> {
    s.update(i, s[i + 1]).update(i + 1, s[i])
}

/// The tiles in solved order are a shuffle.
pub proof fn lemma_goal_is_shuffle()
    ensures
        is_shuffle(goal_tiles()),
{
}

/// A reordering of a shuffle is a shuffle.
pub proof fn lemma_reordering_is_shuffle(before: Seq<u32>, after: Seq<u32>)
    requires
        is_shuffle(before),
        before.to_multiset() == after.to_multiset(),
    ensures
        is_shuffle(after),
{
    broadcast use group_to_multiset_ensures;

    before.lemma_multiset_has_no_duplicates();
    after.lemma_multiset_has_no_duplicates_conv();
    assert(before.len() == before.to_multiset().len());
    assert(after.len() == after.to_multiset().len());
    assert forall|i: int| 0 <= i < 15 implies 1 <= #[trigger] after[i] <= 15 by {
        assert(after.contains(after[i]));
        assert(after.to_multiset().count(after[i]) > 0);
        assert(before.contains(after[i]));
    }
}

/// In the first `k` tiles of the solved order, the values greater than `v`
/// that follow `v` are `v + 1` to `k`.
proof fn lemma_goal_later_greater(k: nat, v: u32)
    requires
        k <= 15,
        1 <= v <= 15,
    ensures
        later_greater(goal_tiles().take(k as int), v) == if v < k {
            k - v
        } else {
            0
        },
    decreases k,
{
    if k > 0 {
        lemma_goal_later_greater((k - 1) as nat, v);
        let s = goal_tiles().take(k as int);
        assert(s.drop_last() =~= goal_tiles().take(k - 1));
        assert(s.last() == k);
        if v < k {
            assert(s.drop_last()[v - 1] == v);
        }
    }
}

/// Over the values 1 to `top`, the solved order counts 14 + 13 + ... pairs.
proof fn lemma_goal_ordered_pairs(top: nat)
    requires
        top <= 15,
    ensures
        2 * ordered_pairs(goal_tiles(), top) == top * (29 - top),
    decreases top,
{
    if top > 0 {
        lemma_goal_ordered_pairs((top - 1) as nat);
        lemma_goal_later_greater(15, top as u32);
        assert(goal_tiles().take(15) =~= goal_tiles());
        let rest = ordered_pairs(goal_tiles(), (top - 1) as nat);
        assert(2 * (rest + (15 - top)) == top * (29 - top)) by (nonlinear_arith)
            requires
                2 * rest == (top - 1) * (29 - (top - 1)),
        ;
    } else {
        assert(top * (29 - top) == 0) by (nonlinear_arith)
            requires
                top == 0,
        ;
    }
}

/// The solved order passes the parity test for every odd row number of the
/// blank: its count is 105. New puzzles are dealt with row number 3.
pub proof fn lemma_goal_is_solvable(zero_row: nat)
    requires
        zero_row % 2 == 1,
    ensures
        ordered_pairs(goal_tiles(), 15) == 105,
        solvable(goal_tiles(), zero_row),
{
    lemma_goal_ordered_pairs(15);
}

/// An exchange leaves the same values in the first places of a sequence that
/// holds both places.
proof fn lemma_exchange_contains(s: Seq<u32>, i: int, v: u32)
    requires
        0 <= i,
        i + 1 < s.len(),
    ensures
        exchanged(s, i).contains(v) == s.contains(v),
{
    let t = exchanged(s, i);
    if s.contains(v) {
        let j = choose|j: int| 0 <= j < s.len() && s[j] == v;
        if j == i {
            assert(t[i + 1] == v);
        } else if j == i + 1 {
            assert(t[i] == v);
        } else {
            assert(t[j] == v);
        }
    }
    if t.contains(v) {
        let j = choose|j: int| 0 <= j < t.len() && t[j] == v;
        if j == i {
            assert(s[i + 1] == v);
        } else if j == i + 1 {
            assert(s[i] == v);
        } else {
            assert(s[j] == v);
        }
    }
}

/// A sequence with one more value at its end holds what it held, and that value.
pub proof fn lemma_contains_push(s: Seq<u32>, x: u32, v: u32)
    ensures
        s.push(x).contains(v) == (s.contains(v) || x == v),
{
    let longer = s.push(x);
    if s.contains(v) {
        let j = choose|j: int| 0 <= j < s.len() && s[j] == v;
        assert(longer[j] == v);
    } else if x == v {
        assert(longer[s.len() as int] == v);
    } else if longer.contains(v) {
        let j = choose|j: int| 0 <= j < longer.len() && longer[j] == v;
        assert(s[j] == v);
    }
}

/// A value added at the end counts if it is greater than `v` and a `v` stands before it.
pub proof fn lemma_later_greater_push(s: Seq<u32>, x: u32, v: u32)
    ensures
        later_greater(s.push(x), v) == later_greater(s, v) + if x > v && s.contains(v) {
            1nat
        } else {
            0nat
        },
{
    let longer = s.push(x);
    assert(longer.drop_last() =~= s);
    assert(longer.last() == x);
}

/// What an exchange of two neighbours does to the count for one value: the
/// pair counts for the smaller of the two exactly when the smaller one stands first.
proof fn lemma_exchange_later_greater(s: Seq<u32>, i: int, v: u32)
    requires
        s.no_duplicates(),
        0 <= i,
        i + 1 < s.len(),
    ensures
        later_greater(exchanged(s, i), v) == later_greater(s, v) + if v == s[i] && s[i + 1] > v {
            -1int
        } else if v == s[i + 1] && s[i] > v {
            1int
        } else {
            0int
        },
    decreases s.len(),
{
    let t = exchanged(s, i);
    if i + 1 < s.len() - 1 {
        let front = s.drop_last();
        assert(t.drop_last() =~= exchanged(front, i));
        assert(front.no_duplicates());
        lemma_exchange_later_greater(front, i, v);
        lemma_exchange_contains(front, i, v);
        assert(front[i] == s[i] && front[i + 1] == s[i + 1]);
        assert(t.last() == s.last());
    } else {
        let a = s[i];
        let b = s[i + 1];
        let pre = s.take(i);
        assert(s =~= pre.push(a).push(b));
        assert(t =~= pre.push(b).push(a));
        lemma_later_greater_push(pre, a, v);
        lemma_later_greater_push(pre.push(a), b, v);
        lemma_later_greater_push(pre, b, v);
        lemma_later_greater_push(pre.push(b), a, v);
        lemma_contains_push(pre, a, v);
        lemma_contains_push(pre, b, v);
        assert(!pre.contains(a)) by {
            if pre.contains(a) {
                let j = choose|j: int| 0 <= j < pre.len() && pre[j] == a;
                assert(s[j] == s[i]);
            }
        }
        assert(!pre.contains(b)) by {
            if pre.contains(b) {
                let j = choose|j: int| 0 <= j < pre.len() && pre[j] == b;
                assert(s[j] == s[i + 1]);
            }
        }
        assert(s[i] != s[i + 1]);
    }
}

/// What an exchange of two neighbours does to the count over the values 1 to `top`.
proof fn lemma_exchange_ordered_pairs(s: Seq<u32>, i: int, top: nat)
    requires
        s.no_duplicates(),
        0 <= i,
        i + 1 < s.len(),
        top <= u32::MAX,
    ensures
        ordered_pairs(exchanged(s, i), top) == ordered_pairs(s, top) + (if 1 <= s[i] <= top && s[i
            + 1] > s[i] {
            -1int
        } else {
            0int
        }) + (if 1 <= s[i + 1] <= top && s[i] > s[i + 1] {
            1int
        } else {
            0int
        }),
    decreases top,
{
    if top > 0 {
        lemma_exchange_ordered_pairs(s, i, (top - 1) as nat);
        lemma_exchange_later_greater(s, i, top as u32);
        assert(s[i] != s[i + 1]);
    }
}

/// An exchange of two neighbouring tiles turns the count from even to odd or
/// from odd to even, and a shuffle stays a shuffle.
pub proof fn lemma_exchange_flips(s: Seq<u32>, i: int)
    requires
        is_shuffle(s),
        0 <= i < 14,
    ensures
        is_shuffle(exchanged(s, i)),
        (ordered_pairs(exchanged(s, i), 15) + ordered_pairs(s, 15)) % 2 == 1,
{
    lemma_exchange_ordered_pairs(s, i, 15);
    assert(s[i] != s[i + 1]);
    let t = exchanged(s, i);
    assert forall|j: int, k: int| 0 <= j < 15 && 0 <= k < 15 && j != k implies t[j] != t[k] by {
        let jj = if j == i {
            i + 1
        } else if j == i + 1 {
            i
        } else {
            j
        };
        let kk = if k == i {
            i + 1
        } else if k == i + 1 {
            i
        } else {
            k
        };
        assert(t[j] == s[jj] && t[k] == s[kk]);
    }
}

} // verus!
