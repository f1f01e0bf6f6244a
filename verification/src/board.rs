//! The merge-tile board as a mathematical value: its lines in each direction,
//! what a move makes of it, and what a move keeps.

use vstd::prelude::*;
use crate::line::{
    all_tiles, collapse_gain, collapsed, is_tile, lemma_change_frees_a_cell,
    lemma_collapse_gain_bound, lemma_collapse_keeps_sum, lemma_collapse_keeps_tiles,
    lemma_collapsed_len, lemma_settled_line, lemma_sum_of_four, line_sum,
};
use crate::moves::Move;

verus! {

/// A game as a mathematical value: the sixteen cells in row-major order, a
/// free cell being 0, and the score.
pub struct Grid {
    pub cells: Seq<u32>,
    pub score: nat,
}

/// The line that cell `i` lies in, for a move in direction `m`: its row for a
/// move to the left or right, its column for a move up or down.
pub open spec fn line_no(m: Move, i: int) -> int {
    match m {
        Move::UP | Move::DOWN => i % 4,
        _ => i / 4,
    }
}

/// The place of cell `i` in its line, counted from the edge that `m` moves
/// the tiles towards.
pub open spec fn line_pos(m: Move, i: int) -> int {
    match m {
        Move::RIGHT => 3 - i % 4,
        Move::UP => i / 4,
        Move::DOWN => 3 - i / 4,
        _ => i % 4,
    }
}

/// The cell that is in place `j` of line `k`, counted from the edge that `m`
/// moves the tiles towards.
pub open spec fn cell_index(m: Move, k: int, j: int) -> int {
    match m {
        Move::RIGHT => 4 * k + (3 - j),
        Move::UP => 4 * j + k,
        Move::DOWN => 4 * (3 - j) + k,
        _ => 4 * k + j,
    }
}

/// Line `k` of the board, read from the edge that `m` moves the tiles towards.
pub open spec fn line_of(cells: Seq<u32>, m: Move, k: int) -> Seq<u32> {
    Seq::new(4, |j: int| cells[cell_index(m, k, j)])
}

/// The board after every line has collapsed towards the edge that `m` names.
/// `NONE` leaves the board as it is.
pub open spec fn slid(cells: Seq<u32>, m: Move) -> Seq<u32> {
    if m == Move::NONE {
        cells
    } else {
        Seq::new(16, |i: int| collapsed(line_of(cells, m, line_no(m, i)))[line_pos(m, i)])
    }
}

/// The sum of the values in the first `k` lines.
pub open spec fn sum_upto(cells: Seq<u32>, m: Move, k: nat) -> nat
    decreases k,
{
    if k == 0 {
        0
    } else {
        sum_upto(cells, m, (k - 1) as nat) + line_sum(line_of(cells, m, k - 1))
    }
}

/// The score that the collapse of the first `k` lines brings.
pub open spec fn gain_upto(cells: Seq<u32>, m: Move, k: nat) -> nat
    decreases k,
{
    if k == 0 {
        0
    } else {
        gain_upto(cells, m, (k - 1) as nat) + collapse_gain(line_of(cells, m, k - 1))
    }
}

/// The score that the move `m` brings.
pub open spec fn slide_gain(cells: Seq<u32>, m: Move) -> nat {
    if m == Move::NONE {
        0
    } else {
        gain_upto(cells, m, 4)
    }
}

/// The sum of all values on the board.
pub open spec fn total(cells: Seq<u32>) -> nat {
    sum_upto(cells, Move::LEFT, 4)
}

/// The value in row `r`, column `c`.
pub open spec fn at(cells: Seq<u32>, r: int, c: int) -> u32 {
    cells[4 * r + c]
}

/// Some cell is free.
pub open spec fn has_free(cells: Seq<u32>) -> bool {
    exists|i: int| 0 <= i < 16 && #[trigger] cells[i] == 0
}

/// The cell in row `r`, column `c` holds a tile, and the cell below it or the
/// cell to its right holds the same.
pub open spec fn pair_at(cells: Seq<u32>, r: int, c: int) -> bool {
    at(cells, r, c) != 0 && ((r < 3 && at(cells, r, c) == at(cells, r + 1, c)) || (c < 3 && at(
        cells,
        r,
        c,
    ) == at(cells, r, c + 1)))
}

/// Two neighbours, in a row or in a column, hold the same tile.
pub open spec fn has_pair(cells: Seq<u32>) -> bool {
    exists|r: int, c: int| 0 <= r < 4 && 0 <= c < 4 && #[trigger] pair_at(cells, r, c)
}

/// The free cells among the first `n` cells, in row-major order, each as its
/// row and column.
pub open spec fn free_upto(cells: Seq<u32>, n: nat) -> Seq<(usize, usize)>
    decreases n,
{
    if n == 0 {
        Seq::empty()
    } else if cells[n - 1] == 0 {
        free_upto(cells, (n - 1) as nat).push((((n - 1) / 4) as usize, ((n - 1) % 4) as usize))
    } else {
        free_upto(cells, (n - 1) as nat)
    }
}

/// The free cells of the board, in row-major order.
pub open spec fn free_cells(cells: Seq<u32>) -> Seq<(usize, usize)> {
    free_upto(cells, 16)
}

/// The board with every cell free.
pub open spec fn blank_cells() -> Seq<u32> {
    Seq::new(16, |i: int| 0u32)
}

/// A move can still change the board: a cell is free, or two neighbours are equal.
pub open spec fn can_move(cells: Seq<u32>) -> bool {
    has_free(cells) || has_pair(cells)
}

/// `after` is `before` with a 2 or a 4 in one cell that was free.
pub open spec fn spawned(before: Seq<u32>, after: Seq<u32>) -> bool {
    exists|i: int|
        0 <= i < 16 && before[i] == 0 && (after[i] == 2 || after[i] == 4) && after
            == #[trigger] before.update(i, after[i])
}

/// The collapse towards the edge that `m` names changes line `k`.
pub open spec fn line_changes(cells: Seq<u32>, m: Move, k: int) -> bool {
    collapsed(line_of(cells, m, k)) != line_of(cells, m, k)
}

/// The collapse towards the edge that `m` names changes one of the first `k` lines.
pub open spec fn changes_upto(cells: Seq<u32>, m: Move, k: nat) -> bool
    decreases k,
{
    k > 0 && (changes_upto(cells, m, (k - 1) as nat) || line_changes(cells, m, k - 1))
}

/// The sixteen cells that four rows of four hold, row after row.
pub open spec fn cells_of_rows(rows: Seq<Vec<u32>>) -> Seq<u32> {
    Seq::new(16, |i: int| rows[i / 4]@[i % 4])
}

/// Four rows of four cells, each free or a tile.
pub open spec fn rows_fit(rows: Seq<Vec<u32>>) -> bool {
    &&& rows.len() == 4
    &&& forall|r: int| 0 <= r < 4 ==> (#[trigger] rows[r])@.len() == 4
    &&& all_tiles(cells_of_rows(rows))
}

impl Grid {
    /// Sixteen cells, each free or a tile.
    pub open spec fn wf(self) -> bool {
        &&& self.cells.len() == 16
        &&& all_tiles(self.cells)
    }

    /// The score after the move `m` fits in a `u32`. Every merged tile is
    /// part of that score, so it fits in its cell too.
    pub open spec fn room_for(self, m: Move) -> bool {
        self.score + slide_gain(self.cells, m) <= u32::MAX
    }

    /// No move can change the board any more.
    pub open spec fn finished(self) -> bool {
        !can_move(self.cells)
    }

    /// The game after the lines have collapsed in direction `m`, before a new
    /// tile comes.
    pub open spec fn collapsed_by(self, m: Move) -> Grid {
        Grid { cells: slid(self.cells, m), score: self.score + slide_gain(self.cells, m) }
    }

    /// `next` can follow from this game by the move `m`: the lines collapse and
    /// the score grows by what merged; if that changed the board, one new tile
    /// has come, and if it did not, none has.
    pub open spec fn follows(self, m: Move, next: Grid) -> bool {
        let mid = self.collapsed_by(m);
        &&& next.score == mid.score
        &&& if mid.cells == self.cells {
            next.cells == self.cells
        } else {
            spawned(mid.cells, next.cells)
        }
    }
}

/// The lines of any direction hold every cell once: their sums add up to the
/// board's total.
pub proof fn lemma_total_by_lines(cells: Seq<u32>, m: Move)
    requires
        cells.len() == 16,
    ensures
        sum_upto(cells, m, 4) == total(cells),
{
    reveal_with_fuel(sum_upto, 5);
    lemma_sum_of_four(line_of(cells, m, 0));
    lemma_sum_of_four(line_of(cells, m, 1));
    lemma_sum_of_four(line_of(cells, m, 2));
    lemma_sum_of_four(line_of(cells, m, 3));
    lemma_sum_of_four(line_of(cells, Move::LEFT, 0));
    lemma_sum_of_four(line_of(cells, Move::LEFT, 1));
    lemma_sum_of_four(line_of(cells, Move::LEFT, 2));
    lemma_sum_of_four(line_of(cells, Move::LEFT, 3));
}

/// No line brings more score than the whole move.
pub proof fn lemma_line_gain_fits(cells: Seq<u32>, m: Move, k: int)
    requires
        m != Move::NONE,
        0 <= k < 4,
    ensures
        collapse_gain(line_of(cells, m, k)) <= slide_gain(cells, m),
{
    reveal_with_fuel(gain_upto, 5);
}

/// The board changes in a move exactly if one of its lines does.
pub proof fn lemma_changes(cells: Seq<u32>, m: Move)
    requires
        cells.len() == 16,
        m != Move::NONE,
    ensures
        changes_upto(cells, m, 4) == (slid(cells, m) != cells),
{
    reveal_with_fuel(changes_upto, 5);
    if changes_upto(cells, m, 4) {
        let k = choose|k: int| 0 <= k < 4 && line_changes(cells, m, k);
        let line = line_of(cells, m, k);
        lemma_collapsed_len(line);
        assert(!(collapsed(line) =~= line));
        let p = choose|p: int| 0 <= p < 4 && collapsed(line)[p] != line[p];
        let i = cell_index(m, k, p);
        assert(line_no(m, i) == k && line_pos(m, i) == p);
        assert(slid(cells, m)[i] != cells[i]);
    } else {
        assert forall|i: int| 0 <= i < 16 implies slid(cells, m)[i] == cells[i] by {
            let k = line_no(m, i);
            let line = line_of(cells, m, k);
            assert(!line_changes(cells, m, k));
            assert(line[line_pos(m, i)] == cells[cell_index(m, k, line_pos(m, i))]);
        }
        assert(slid(cells, m) =~= cells);
    }
}

/// A move that changes the board leaves a cell free.
pub proof fn lemma_change_frees(cells: Seq<u32>, m: Move)
    requires
        cells.len() == 16,
        slid(cells, m) != cells,
    ensures
        has_free(slid(cells, m)),
{
    lemma_changes(cells, m);
    reveal_with_fuel(changes_upto, 5);
    let k = choose|k: int| 0 <= k < 4 && line_changes(cells, m, k);
    lemma_change_frees_a_cell(line_of(cells, m, k));
    let i = cell_index(m, k, 3);
    assert(line_no(m, i) == k && line_pos(m, i) == 3);
    assert(slid(cells, m)[i] == 0);
}

/// A move on a board of tiles gives a board of tiles, where the score that
/// it brings fits in a `u32`.
pub proof fn lemma_slid_keeps_tiles(cells: Seq<u32>, m: Move)
    requires
        cells.len() == 16,
        all_tiles(cells),
        slide_gain(cells, m) <= u32::MAX,
    ensures
        slid(cells, m).len() == 16,
        all_tiles(slid(cells, m)),
{
    if m != Move::NONE {
        assert forall|c: int| 0 <= c < 16 implies slid(cells, m)[c] == 0 || is_tile(
            #[trigger] slid(cells, m)[c],
        ) by {
            let line = line_of(cells, m, line_no(m, c));
            assert(all_tiles(line)) by {
                assert forall|p: int| 0 <= p < 4 implies line[p] == 0 || is_tile(
                    #[trigger] line[p],
                ) by {
                    assert(line[p] == cells[cell_index(m, line_no(m, c), p)]);
                }
            }
            lemma_line_gain_fits(cells, m, line_no(m, c));
            lemma_collapse_keeps_tiles(line);
            lemma_collapsed_len(line);
        }
    }
}

/// A move keeps the sum of the tiles: what merges stays on the board as one
/// tile, so a move to one side followed by a move to the other loses nothing,
/// though it does not bring the first board back. It holds wherever the score
/// that the move brings fits in a `u32`, which is where the move can be made.
pub proof fn lemma_slide_keeps_total(cells: Seq<u32>, m: Move)
    requires
        cells.len() == 16,
        slide_gain(cells, m) <= u32::MAX,
    ensures
        slid(cells, m).len() == 16,
        total(slid(cells, m)) == total(cells),
{
    if m != Move::NONE {
        let after = slid(cells, m);
        lemma_total_by_lines(cells, m);
        lemma_total_by_lines(after, m);
        reveal_with_fuel(sum_upto, 5);
        reveal_with_fuel(gain_upto, 5);
        assert forall|k: int| 0 <= k < 4 implies line_sum(#[trigger] line_of(after, m, k))
            == line_sum(line_of(cells, m, k)) by {
            let line = line_of(cells, m, k);
            lemma_line_gain_fits(cells, m, k);
            lemma_collapse_keeps_sum(line);
            lemma_collapsed_len(line);
            assert(line_of(after, m, k) =~= collapsed(line)) by {
                assert forall|j: int| 0 <= j < 4 implies line_of(after, m, k)[j] == collapsed(
                    line,
                )[j] by {
                    let i = cell_index(m, k, j);
                    assert(line_no(m, i) == k && line_pos(m, i) == j);
                }
            }
        }
        assert(line_sum(line_of(after, m, 0)) == line_sum(line_of(cells, m, 0)));
        assert(line_sum(line_of(after, m, 1)) == line_sum(line_of(cells, m, 1)));
        assert(line_sum(line_of(after, m, 2)) == line_sum(line_of(cells, m, 2)));
        assert(line_sum(line_of(after, m, 3)) == line_sum(line_of(cells, m, 3)));
    }
}

/// A move brings no more score than the board holds.
pub proof fn lemma_slide_gain_bound(cells: Seq<u32>, m: Move)
    requires
        cells.len() == 16,
    ensures
        slide_gain(cells, m) <= total(cells),
{
    if m != Move::NONE {
        lemma_total_by_lines(cells, m);
        reveal_with_fuel(sum_upto, 5);
        reveal_with_fuel(gain_upto, 5);
        lemma_collapse_gain_bound(line_of(cells, m, 0));
        lemma_collapse_gain_bound(line_of(cells, m, 1));
        lemma_collapse_gain_bound(line_of(cells, m, 2));
        lemma_collapse_gain_bound(line_of(cells, m, 3));
    }
}

/// A board whose cells hold at most 4 each holds at most 64 in all.
pub proof fn lemma_small_board(cells: Seq<u32>)
    requires
        cells.len() == 16,
        forall|i: int| 0 <= i < 16 ==> #[trigger] cells[i] <= 4,
    ensures
        total(cells) <= 64,
{
    reveal_with_fuel(sum_upto, 5);
    lemma_sum_of_four(line_of(cells, Move::LEFT, 0));
    lemma_sum_of_four(line_of(cells, Move::LEFT, 1));
    lemma_sum_of_four(line_of(cells, Move::LEFT, 2));
    lemma_sum_of_four(line_of(cells, Move::LEFT, 3));
}

/// A finished board is left as it is by every move, and brings no score.
pub proof fn lemma_finished_is_settled(cells: Seq<u32>, m: Move)
    requires
        cells.len() == 16,
        !can_move(cells),
    ensures
        slid(cells, m) == cells,
        slide_gain(cells, m) == 0,
{
    if m != Move::NONE {
        reveal_with_fuel(gain_upto, 5);
        assert forall|k: int| 0 <= k < 4 implies collapsed(#[trigger] line_of(cells, m, k))
            == line_of(cells, m, k) && collapse_gain(line_of(cells, m, k)) == 0 by {
            let line = line_of(cells, m, k);
            assert forall|j: int| 0 <= j < 4 implies #[trigger] line[j] != 0 by {
                let i = cell_index(m, k, j);
                assert(cells[i] != 0);
            }
            assert forall|j: int| 0 <= j < 3 && #[trigger] line[j] != 0 implies line[j] != line[j
                + 1] by {
                match m {
                    Move::RIGHT => {
                        assert(!pair_at(cells, k, 2 - j));
                    },
                    Move::UP => {
                        assert(!pair_at(cells, j, k));
                    },
                    Move::DOWN => {
                        assert(!pair_at(cells, 2 - j, k));
                    },
                    _ => {
                        assert(!pair_at(cells, k, j));
                    },
                }
            }
            lemma_settled_line(line);
        }
        assert(collapse_gain(line_of(cells, m, 0)) == 0);
        assert(collapse_gain(line_of(cells, m, 1)) == 0);
        assert(collapse_gain(line_of(cells, m, 2)) == 0);
        assert(collapse_gain(line_of(cells, m, 3)) == 0);
        assert forall|i: int| 0 <= i < 16 implies slid(cells, m)[i] == cells[i] by {
            let k = line_no(m, i);
            let line = line_of(cells, m, k);
            assert(collapsed(line) == line);
            assert(line[line_pos(m, i)] == cells[cell_index(m, k, line_pos(m, i))]);
        }
        assert(slid(cells, m) =~= cells);
    }
}

/// A full board is finished exactly if no two neighbours hold the same tile.
pub proof fn lemma_full_board(g: Grid)
    requires
        g.cells.len() == 16,
        forall|i: int| 0 <= i < 16 ==> g.cells[i] != 0,
    ensures
        g.finished() <==> !has_pair(g.cells),
{
}

/// A move that leaves the board as it is brings no tile, whatever the random
/// source would have given.
pub proof fn lemma_no_change_no_tile(g: Grid, m: Move, next: Grid)
    requires
        g.follows(m, next),
        slid(g.cells, m) == g.cells,
    ensures
        next.cells == g.cells,
{
}

/// The list of free cells holds the row and column of each free cell, and nothing else.
pub proof fn lemma_free_cells(cells: Seq<u32>, n: nat)
    requires
        cells.len() == 16,
        n <= 16,
    ensures
        forall|p: (usize, usize)| #[trigger]
            free_upto(cells, n).contains(p) ==> p.0 < 4 && p.1 < 4 && 4 * p.0 + p.1 < n && cells[4
                * p.0 + p.1] == 0,
        forall|i: int|
            0 <= i < n && #[trigger] cells[i] == 0 ==> free_upto(cells, n).contains(
                ((i / 4) as usize, (i % 4) as usize),
            ),
    decreases n,
{
    if n > 0 {
        lemma_free_cells(cells, (n - 1) as nat);
        let rest = free_upto(cells, (n - 1) as nat);
        let all = free_upto(cells, n);
        let last = (((n - 1) / 4) as usize, ((n - 1) % 4) as usize);
        assert forall|p: (usize, usize)| #[trigger] all.contains(p) implies p.0 < 4 && p.1 < 4 && 4
            * p.0 + p.1 < n && cells[4 * p.0 + p.1] == 0 by {
            let j = choose|j: int| 0 <= j < all.len() && all[j] == p;
            if j < rest.len() {
                assert(rest.contains(rest[j]));
            }
        }
        assert forall|i: int| 0 <= i < n && #[trigger] cells[i] == 0 implies all.contains(
            ((i / 4) as usize, (i % 4) as usize),
        ) by {
            if i < n - 1 {
                let p = ((i / 4) as usize, (i % 4) as usize);
                assert(rest.contains(p));
                let j = choose|j: int| 0 <= j < rest.len() && rest[j] == p;
                assert(all[j] == p);
            } else {
                assert(all[all.len() - 1] == last);
            }
        }
    }
}

/// Every entry of the list of free cells is a free cell of the board.
pub proof fn lemma_free_member(cells: Seq<u32>, p: (usize, usize))
    requires
        cells.len() == 16,
        free_cells(cells).contains(p),
    ensures
        p.0 < 4,
        p.1 < 4,
        cells[4 * p.0 + p.1] == 0,
{
    lemma_free_cells(cells, 16);
}

/// A board with a free cell has a list of free cells that is not empty.
pub proof fn lemma_free_not_empty(cells: Seq<u32>)
    requires
        cells.len() == 16,
        has_free(cells),
    ensures
        free_cells(cells).len() > 0,
{
    lemma_free_cells(cells, 16);
    let i = choose|i: int| 0 <= i < 16 && #[trigger] cells[i] == 0;
    assert(free_cells(cells).contains(((i / 4) as usize, (i % 4) as usize)));
}

} // verus!
