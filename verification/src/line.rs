//! One line of the merge-tile board, read from the edge that the tiles move
//! towards: what a collapse makes of it, and what a collapse keeps.

use vstd::arithmetic::power2::{lemma2_to64, lemma_pow2_strictly_increases, lemma_pow2_unfold, pow2};
use vstd::prelude::*;

verus! {

/// The sum of the values in a line.
pub open spec fn line_sum(s: Seq<u32>) -> nat
    decreases s.len(),
{
    if s.len() == 0 {
        0
    } else {
        s[0] as nat + line_sum(s.skip(1))
    }
}

/// The line without its zeros, the other values in their order.
pub open spec fn packed(s: Seq<u32>) -> Seq<u32>
    decreases s.len(),
{
    if s.len() == 0 {
        s
    } else if s.last() != 0 {
        packed(s.drop_last()).push(s.last())
    } else {
        packed(s.drop_last())
    }
}

/// Twice `v`. A merge is asked for only where that fits in a `u32`.
pub open spec fn doubled(v: u32) -> u32 {
    (2 * v) as u32
}

/// Equal neighbours merged, from the front: the first two values become one
/// if they are equal, and that one takes no part in a further merge.
pub open spec fn merged(s: Seq<u32>) -> Seq<u32>
    decreases s.len(),
{
    if s.len() == 0 {
        s
    } else if s.len() >= 2 && s[0] == s[1] {
        seq![doubled(s[0])] + merged(s.skip(2))
    } else {
        seq![s[0]] + merged(s.skip(1))
    }
}

/// The score that merging brings: the sum of the merged values.
pub open spec fn gained(s: Seq<u32>) -> nat
    decreases s.len(),
{
    if s.len() == 0 {
        0
    } else if s.len() >= 2 && s[0] == s[1] {
        2 * s[0] as nat + gained(s.skip(2))
    } else {
        gained(s.skip(1))
    }
}

/// The line filled up with zeros at its end to four places.
pub open spec fn padded(s: Seq<u32>) -> Seq<u32> {
    if s.len() < 4 {
        s + Seq::new((4 - s.len()) as nat, |i: int| 0u32)
    } else {
        s
    }
}

/// The line after a collapse: packed, merged, padded.
pub open spec fn collapsed(s: Seq<u32>) -> Seq<u32> {
    padded(merged(packed(s)))
}

/// The score that a collapse of the line brings.
pub open spec fn collapse_gain(s: Seq<u32>) -> nat {
    gained(packed(s))
}

/// A tile's value: a power of two from 2 up to what a cell can hold.
pub open spec fn is_tile(v: u32) -> bool {
    exists|k: nat| 1 <= k <= 31 && v == #[trigger] pow2(k)
}

/// 2 and 4, the values that new tiles come with, are tiles.
pub proof fn lemma_new_tiles()
    ensures
        is_tile(2),
        is_tile(4),
{
    lemma2_to64();
    assert(2u32 == pow2(1));
    assert(4u32 == pow2(2));
}

/// Whether `v` is a tile's value.
pub fn is_tile_value(v: u32) -> (yes: bool)
    ensures
        yes == is_tile(v),
{
    let mut t: u32 = 2;
    let ghost mut k: nat = 1;
    proof {
        lemma2_to64();
    }
    while t < v && t <= 0x4000_0000
        invariant
            1 <= k <= 31,
            t == pow2(k),
            pow2(30) == 0x4000_0000,
            forall|j: nat| 1 <= j < k ==> #[trigger] pow2(j) < v,
        decreases 31 - k,
    {
        proof {
            if k > 30 {
                lemma_pow2_strictly_increases(30, k);
            }
            lemma_pow2_unfold(k + 1);
            k = k + 1;
        }
        t = t * 2;
    }
    proof {
        if t != v && is_tile(v) {
            let j = choose|j: nat| 1 <= j <= 31 && v == #[trigger] pow2(j);
            if j > k {
                lemma_pow2_strictly_increases(k, j);
                if k < 30 {
                    lemma_pow2_strictly_increases(k, 30);
                }
            }
        }
    }
    t == v
}

/// Every cell of the line is free or holds a tile.
pub open spec fn all_tiles(s: Seq<u32>) -> bool {
    forall|i: int| 0 <= i < s.len() ==> s[i] == 0 || is_tile(#[trigger] s[i])
}

/// The sum of a line from its `j`-th value on is that value and the sum of the rest.
pub proof fn lemma_sum_step(s: Seq<u32>, j: int)
    requires
        0 <= j < s.len(),
    ensures
        line_sum(s.skip(j)) == s[j] + line_sum(s.skip(j + 1)),
{
    assert(s.skip(j).skip(1) =~= s.skip(j + 1));
}

/// A value added at the end adds itself to the sum.
pub proof fn lemma_sum_push(s: Seq<u32>, x: u32)
    ensures
        line_sum(s.push(x)) == line_sum(s) + x,
    decreases s.len(),
{
    if s.len() == 0 {
        assert(s.push(x).skip(1) =~= s);
    } else {
        assert(s.push(x).skip(1) =~= s.skip(1).push(x));
        lemma_sum_push(s.skip(1), x);
    }
}

/// The sum of four values.
pub proof fn lemma_sum_of_four(s: Seq<u32>)
    requires
        s.len() == 4,
    ensures
        line_sum(s) == s[0] + s[1] + s[2] + s[3],
{
    lemma_sum_step(s, 3);
    lemma_sum_step(s, 2);
    lemma_sum_step(s, 1);
    lemma_sum_step(s, 0);
    assert(s.skip(0) =~= s);
    assert(line_sum(s.skip(4)) == 0);
}

/// Packing drops only zeros: the sum stays.
pub proof fn lemma_packed_sum(s: Seq<u32>)
    ensures
        line_sum(packed(s)) == line_sum(s),
    decreases s.len(),
{
    if s.len() > 0 {
        lemma_packed_sum(s.drop_last());
        lemma_sum_push(s.drop_last(), s.last());
        assert(s.drop_last().push(s.last()) =~= s);
        if s.last() != 0 {
            lemma_sum_push(packed(s.drop_last()), s.last());
        }
    }
}

/// Packing makes a line no longer, and a line that it leaves as long is unchanged.
pub proof fn lemma_packed_len(s: Seq<u32>)
    ensures
        packed(s).len() <= s.len(),
        packed(s).len() == s.len() ==> packed(s) == s,
    decreases s.len(),
{
    if s.len() > 0 {
        lemma_packed_len(s.drop_last());
        if packed(s).len() == s.len() {
            assert(s.drop_last().push(s.last()) =~= s);
        }
    }
}

/// Packing a line of tiles gives a line of tiles.
pub proof fn lemma_packed_tiles(s: Seq<u32>)
    requires
        all_tiles(s),
    ensures
        all_tiles(packed(s)),
    decreases s.len(),
{
    if s.len() > 0 {
        assert(all_tiles(s.drop_last())) by {
            assert forall|i: int| 0 <= i < s.drop_last().len() implies s.drop_last()[i] == 0
                || is_tile(#[trigger] s.drop_last()[i]) by {
                assert(s.drop_last()[i] == s[i]);
            }
        }
        lemma_packed_tiles(s.drop_last());
    }
}

/// Merging keeps the sum, as long as the score that it brings fits in a `u32`.
pub proof fn lemma_merged_sum(s: Seq<u32>)
    requires
        gained(s) <= u32::MAX,
    ensures
        line_sum(merged(s)) == line_sum(s),
    decreases s.len(),
{
    if s.len() == 0 {
    } else if s.len() >= 2 && s[0] == s[1] {
        lemma_sum_step(s, 0);
        lemma_sum_step(s, 1);
        assert(s.skip(0) =~= s);
        assert(s.skip(1)[0] == s[1]);
        lemma_merged_sum(s.skip(2));
        let front = seq![doubled(s[0])];
        let all = front + merged(s.skip(2));
        assert(all.skip(1) =~= merged(s.skip(2)));
    } else {
        lemma_sum_step(s, 0);
        assert(s.skip(0) =~= s);
        lemma_merged_sum(s.skip(1));
        let all = seq![s[0]] + merged(s.skip(1));
        assert(all.skip(1) =~= merged(s.skip(1)));
    }
}

/// Merging brings no more score than the line holds.
pub proof fn lemma_gained_bound(s: Seq<u32>)
    ensures
        gained(s) <= line_sum(s),
    decreases s.len(),
{
    if s.len() == 0 {
    } else if s.len() >= 2 && s[0] == s[1] {
        lemma_sum_step(s, 0);
        lemma_sum_step(s, 1);
        assert(s.skip(0) =~= s);
        lemma_gained_bound(s.skip(2));
    } else {
        lemma_sum_step(s, 0);
        assert(s.skip(0) =~= s);
        lemma_gained_bound(s.skip(1));
    }
}

/// Merging makes a line no longer, and a line that it leaves as long is unchanged.
pub proof fn lemma_merged_len(s: Seq<u32>)
    ensures
        merged(s).len() <= s.len(),
        merged(s).len() == s.len() ==> merged(s) == s,
    decreases s.len(),
{
    if s.len() == 0 {
    } else if s.len() >= 2 && s[0] == s[1] {
        lemma_merged_len(s.skip(2));
    } else {
        lemma_merged_len(s.skip(1));
        if merged(s).len() == s.len() {
            assert(seq![s[0]] + s.skip(1) =~= s);
        }
    }
}

/// Twice a tile is a tile, if it fits in a cell.
pub proof fn lemma_doubled_tile(v: u32)
    requires
        is_tile(v),
        2 * v <= u32::MAX,
    ensures
        is_tile(doubled(v)),
{
    let k = choose|k: nat| 1 <= k <= 31 && v == #[trigger] pow2(k);
    lemma_pow2_unfold(k + 1);
    lemma2_to64();
    if k == 31 {
        assert(2 * v == pow2(32));
    }
    assert(doubled(v) == pow2(k + 1));
}

/// Merging tiles gives tiles, as long as the score that it brings fits in a `u32`.
pub proof fn lemma_merged_tiles(s: Seq<u32>)
    requires
        all_tiles(s),
        gained(s) <= u32::MAX,
    ensures
        all_tiles(merged(s)),
    decreases s.len(),
{
    if s.len() == 0 {
    } else if s.len() >= 2 && s[0] == s[1] {
        let rest = s.skip(2);
        assert(all_tiles(rest)) by {
            assert forall|i: int| 0 <= i < rest.len() implies rest[i] == 0 || is_tile(
                #[trigger] rest[i],
            ) by {
                assert(rest[i] == s[i + 2]);
            }
        }
        lemma_merged_tiles(rest);
        if s[0] != 0 {
            lemma_doubled_tile(s[0]);
        }
        let all = seq![doubled(s[0])] + merged(rest);
        assert forall|i: int| 0 <= i < all.len() implies all[i] == 0 || is_tile(
            #[trigger] all[i],
        ) by {
            if i > 0 {
                assert(all[i] == merged(rest)[i - 1]);
            }
        }
    } else {
        let rest = s.skip(1);
        assert(all_tiles(rest)) by {
            assert forall|i: int| 0 <= i < rest.len() implies rest[i] == 0 || is_tile(
                #[trigger] rest[i],
            ) by {
                assert(rest[i] == s[i + 1]);
            }
        }
        lemma_merged_tiles(rest);
        let all = seq![s[0]] + merged(rest);
        assert forall|i: int| 0 <= i < all.len() implies all[i] == 0 || is_tile(
            #[trigger] all[i],
        ) by {
            if i > 0 {
                assert(all[i] == merged(rest)[i - 1]);
            }
        }
    }
}

/// The zeros that padding adds leave the sum as it is.
pub proof fn lemma_padded_sum(s: Seq<u32>)
    ensures
        line_sum(padded(s)) == line_sum(s),
{
    if s.len() < 4 {
        lemma_zeros_sum(s, (4 - s.len()) as nat);
    }
}

/// Zeros at the end of a line leave its sum as it is.
proof fn lemma_zeros_sum(s: Seq<u32>, n: nat)
    ensures
        line_sum(s + Seq::new(n, |i: int| 0u32)) == line_sum(s),
    decreases n,
{
    if n == 0 {
        assert(s + Seq::new(n, |i: int| 0u32) =~= s);
    } else {
        let shorter = s + Seq::new((n - 1) as nat, |i: int| 0u32);
        lemma_zeros_sum(s, (n - 1) as nat);
        lemma_sum_push(shorter, 0);
        assert(shorter.push(0) =~= s + Seq::new(n, |i: int| 0u32));
    }
}

/// A collapsed line of at most four cells has four cells.
pub proof fn lemma_collapsed_len(s: Seq<u32>)
    requires
        s.len() <= 4,
    ensures
        collapsed(s).len() == 4,
{
    lemma_packed_len(s);
    lemma_merged_len(packed(s));
}

/// A collapse keeps the sum of the line: what merges is not lost, whichever
/// edge the line is read from. It holds wherever the score that the collapse
/// brings fits in a `u32`, which is where `collapse_left` can be called.
pub proof fn lemma_collapse_keeps_sum(s: Seq<u32>)
    requires
        collapse_gain(s) <= u32::MAX,
    ensures
        line_sum(collapsed(s)) == line_sum(s),
{
    lemma_packed_sum(s);
    lemma_merged_sum(packed(s));
    lemma_padded_sum(merged(packed(s)));
}

/// A collapse brings no more score than the line holds.
pub proof fn lemma_collapse_gain_bound(s: Seq<u32>)
    ensures
        collapse_gain(s) <= line_sum(s),
{
    lemma_packed_sum(s);
    lemma_gained_bound(packed(s));
}

/// A collapse of tiles gives tiles.
pub proof fn lemma_collapse_keeps_tiles(s: Seq<u32>)
    requires
        all_tiles(s),
        collapse_gain(s) <= u32::MAX,
    ensures
        all_tiles(collapsed(s)),
{
    lemma_packed_tiles(s);
    lemma_merged_tiles(packed(s));
}

/// A line of four cells in which no free cell stands before a tile and no two
/// neighbours are equal tiles is left as it is by a collapse, and brings no score.
pub proof fn lemma_settled_line(s: Seq<u32>)
    requires
        s.len() == 4,
        forall|i: int, j: int| 0 <= i < j < 4 && s[i] == 0 ==> s[j] == 0,
        forall|i: int| 0 <= i < 3 && #[trigger] s[i] != 0 ==> s[i] != s[i + 1],
    ensures
        collapsed(s) == s,
        collapse_gain(s) == 0,
{
    let tiles = packed(s);
    lemma_packed_prefix(s, 4);
    assert(s.take(4) =~= s);
    lemma_merged_distinct(tiles);
    assert(collapsed(s) =~= s);
}

/// The number of tiles among the first `n` cells of a line.
pub open spec fn tiles_upto(s: Seq<u32>, n: nat) -> nat
    decreases n,
{
    if n == 0 {
        0
    } else {
        tiles_upto(s, (n - 1) as nat) + if s[n - 1] != 0 {
            1nat
        } else {
            0nat
        }
    }
}

/// Where no free cell stands before a tile, packing the first `n` cells
/// leaves just the tiles at the front.
proof fn lemma_packed_prefix(s: Seq<u32>, n: nat)
    requires
        n <= s.len(),
        forall|i: int, j: int| 0 <= i < j < s.len() && s[i] == 0 ==> s[j] == 0,
    ensures
        tiles_upto(s, n) <= n,
        packed(s.take(n as int)) == s.take(tiles_upto(s, n) as int),
        forall|i: int| 0 <= i < tiles_upto(s, n) ==> s[i] != 0,
        forall|i: int| tiles_upto(s, n) <= i < n ==> s[i] == 0,
    decreases n,
{
    if n == 0 {
        assert(packed(s.take(0)) =~= s.take(0));
    } else {
        lemma_packed_prefix(s, (n - 1) as nat);
        let shorter = s.take(n - 1);
        let longer = s.take(n as int);
        assert(longer.drop_last() =~= shorter);
        assert(longer.last() == s[n - 1]);
        let t = tiles_upto(s, (n - 1) as nat);
        if s[n - 1] != 0 {
            if t < n - 1 {
                assert(s[t as int] == 0);
            }
            assert(s.take(t as int).push(s[n - 1]) =~= s.take(t as int + 1));
        }
    }
}

/// Merging changes nothing in a line without zeros in which no two neighbours are equal.
proof fn lemma_merged_distinct(s: Seq<u32>)
    requires
        forall|i: int| 0 <= i < s.len() - 1 ==> s[i] != #[trigger] s[i + 1],
    ensures
        merged(s) == s,
        gained(s) == 0,
    decreases s.len(),
{
    if s.len() > 0 {
        let rest = s.skip(1);
        assert forall|i: int| 0 <= i < rest.len() - 1 implies rest[i] != #[trigger] rest[i + 1] by {
            assert(s[i + 1] != s[i + 1 + 1]);
        }
        lemma_merged_distinct(rest);
        if s.len() >= 2 {
            assert(s[0int] != s[0int + 1]);
        }
        assert(seq![s[0]] + rest =~= s);
    }
}

/// A line of four cells that a collapse changes ends in a free cell afterwards.
pub proof fn lemma_change_frees_a_cell(s: Seq<u32>)
    requires
        s.len() == 4,
        collapsed(s) != s,
    ensures
        collapsed(s).len() == 4,
        collapsed(s)[3] == 0,
{
    lemma_packed_len(s);
    lemma_merged_len(packed(s));
}

} // verus!
