//! The merge-tile game: tiles that are powers of two slide to one edge of a
//! 4×4 board, equal neighbours merge, and each move that changes the board
//! brings a new tile.

use rand::rngs::StdRng;
use vstd::arithmetic::power2::{lemma2_to64, lemma_pow2_strictly_increases, lemma_pow2_unfold, pow2};
use vstd::prelude::*;
use crate::board::{
    at, blank_cells, can_move, cell_index, cells_of_rows, changes_upto, free_cells, free_upto,
    gain_upto, has_free, lemma_change_frees, lemma_changes, lemma_free_member,
    lemma_free_not_empty, lemma_slid_keeps_tiles, lemma_slide_gain_bound, lemma_small_board,
    line_changes, line_no, line_of, line_pos, pair_at, rows_fit, slid, slide_gain, spawned, Grid,
};
use crate::game::Game;
use crate::line::{
    all_tiles, collapse_gain, collapsed, doubled, gained, is_tile, is_tile_value, lemma_collapse_gain_bound,
    lemma_collapsed_len, lemma_new_tiles, lemma_packed_len, lemma_sum_of_four, merged, packed,
    padded,
};
use crate::moves::Move;
use crate::random::pick_one;
use crate::utils::{decimal, decimal_string, Color};

verus! {

/// The five colours that tiles are shown in, in the order in which they take turns.
pub open spec fn palette() -> Seq<Color> {
    seq![Color::WHITE, Color::CYAN, Color::GREEN, Color::MAGENTA, Color::RED]
}

/// What a number is shown as: its decimal digits below 1024, one short label from there on.
pub open spec fn number_label(n: u32) -> Seq<char> {
    if n < 1024 {
        decimal(n as nat)
    } else {
        "1K"@
    }
}

/// The power of two that a tile is.
pub open spec fn exponent(n: u32) -> nat {
    choose|k: nat| n == pow2(k)
}

/// The colour of the tile `n`: the tile two to the power of `k` has the colour
/// `k - 1` of the palette, which starts again after its last colour.
pub open spec fn tile_color(n: u32) -> Color {
    palette()[(exponent(n) - 1) % 5]
}

/// What a cell shows: a dot in yellow if it is free, else the tile's label in
/// the tile's colour.
pub open spec fn tile_face(value: u32) -> (Seq<char>, Color) {
    if value == 0 {
        ("."@, Color::YELLOW)
    } else {
        (number_label(value), tile_color(value))
    }
}

/// The exponent of two to the power of `k` is `k`.
pub proof fn lemma_exponent(k: nat)
    requires
        pow2(k) <= u32::MAX,
    ensures
        exponent(pow2(k) as u32) == k,
{
    let n = pow2(k) as u32;
    let found = exponent(n);
    assert(n == pow2(found));
    if found < k {
        lemma_pow2_strictly_increases(found, k);
    } else if k < found {
        lemma_pow2_strictly_increases(k, found);
    }
}

pub struct Super2048 {
    desk: Vec<u32>,
    score: u32,
    rng: StdRng,
}

impl View for Super2048 {
    type V = Grid;

    closed spec fn view(&self) -> Grid {
        Grid { cells: self.desk@, score: self.score as nat }
    }
}

/// The board index of place `j` in line `k`, for direction `m`.
fn index_of(m: Move, k: usize, j: usize) -> (i: usize)
    requires
        k < 4,
        j < 4,
    ensures
        i == cell_index(m, k as int, j as int),
        i < 16,
        line_no(m, i as int) == k,
        line_pos(m, i as int) == j,
{
    match m {
        Move::RIGHT => 4 * k + (3 - j),
        Move::UP => 4 * j + k,
        Move::DOWN => 4 * (3 - j) + k,
        _ => 4 * k + j,
    }
}

impl Super2048 {
    /// The line without its zeros.
    fn pack(numbers: &[u32]) -> (list: Vec<u32>)
        ensures
            list@ == packed(numbers@),
    {
        let mut list: Vec<u32> = Vec::new();
        let mut i: usize = 0;
        while i < numbers.len()
            invariant
                i <= numbers.len(),
                list@ == packed(numbers@.take(i as int)),
            decreases numbers.len() - i,
        {
            let x = numbers[i];
            proof {
                let longer = numbers@.take(i + 1);
                assert(longer.drop_last() =~= numbers@.take(i as int));
                assert(longer.last() == x);
            }
            if x > 0 {
                list.push(x);
            }
            i += 1;
        }
        assert(numbers@.take(i as int) =~= numbers@);
        list
    }

    /// Collapses one line towards its front: the zeros go, each value merges
    /// with an equal value that follows it, and zeros fill the line up to four
    /// places. Returns the line and the score that the merges bring.
    ///
    /// The score must fit in a `u32`; every merged value then fits as well.
    pub fn collapse_left(numbers: &[u32]) -> (out: (Vec<u32>, u32))
        requires
            collapse_gain(numbers@) <= u32::MAX,
        ensures
            out.0@ == collapsed(numbers@),
            out.1 == collapse_gain(numbers@),
    {
        let list = Super2048::pack(numbers);
        assert(list@.skip(0) =~= list@);

        let mut result: Vec<u32> = Vec::new();
        let mut score: u32 = 0;
        let mut j: usize = 0;
        while j < list.len()
            invariant
                j <= list.len(),
                gained(list@) <= u32::MAX,
                result@ + merged(list@.skip(j as int)) == merged(list@),
                score + gained(list@.skip(j as int)) == gained(list@),
            decreases list.len() - j,
        {
            let mut num = list[j];
            let ghost rest = list@.skip(j as int);
            assert(rest[0] == num);
            if j + 1 < list.len() && list[j + 1] == num {
                proof {
                    assert(rest[1] == num);
                    assert(rest.skip(2) =~= list@.skip(j + 2));
                    assert(result@.push(doubled(num)) + merged(list@.skip(j + 2)) =~= result@
                        + merged(rest));
                }
                num = num + num;
                score = score + num;
                j += 2;
            } else {
                proof {
                    assert(rest.skip(1) =~= list@.skip(j + 1));
                    assert(result@.push(num) + merged(list@.skip(j + 1)) =~= result@ + merged(
                        rest,
                    ));
                }
                j += 1;
            }
            result.push(num);
        }
        proof {
            assert(result@ + merged(list@.skip(j as int)) =~= result@);
        }

        let ghost whole = result@;
        while result.len() < 4
            invariant
                whole.len() <= result@.len(),
                result@.len() <= 4 || result@ == whole,
                result@ == whole + Seq::new((result@.len() - whole.len()) as nat, |i: int| 0u32),
            decreases 4 - result@.len(),
        {
            result.push(0);
        }
        assert(result@ =~= padded(whole));
        (result, score)
    }

    /// The score that a collapse of a line of at most four cells brings.
    fn line_gain(numbers: &[u32]) -> (gain: u64)
        requires
            numbers@.len() <= 4,
        ensures
            gain == collapse_gain(numbers@),
    {
        let list = Super2048::pack(numbers);
        proof {
            lemma_packed_len(numbers@);
            assert(list@.skip(0) =~= list@);
        }
        let mut gain: u64 = 0;
        let mut j: usize = 0;
        while j < list.len()
            invariant
                j <= list.len() <= 4,
                gain + gained(list@.skip(j as int)) == gained(list@),
                gain <= j * 0xffff_ffff,
            decreases list.len() - j,
        {
            let num = list[j];
            let ghost rest = list@.skip(j as int);
            assert(rest[0] == num);
            if j + 1 < list.len() && list[j + 1] == num {
                proof {
                    assert(rest[1] == num);
                    assert(rest.skip(2) =~= list@.skip(j + 2));
                }
                gain = gain + 2 * (num as u64);
                j += 2;
            } else {
                proof {
                    assert(rest.skip(1) =~= list@.skip(j + 1));
                }
                j += 1;
            }
        }
        gain
    }

    /// Line `k` of the board, read from the edge that `m` names.
    fn read_line(&self, m: Move, k: usize) -> (numbers: Vec<u32>)
        requires
            self.desk@.len() == 16,
            k < 4,
        ensures
            numbers@ == line_of(self.desk@, m, k as int),
    {
        let ghost line = line_of(self.desk@, m, k as int);
        let mut numbers: Vec<u32> = Vec::new();
        let mut j: usize = 0;
        while j < 4
            invariant
                j <= 4,
                k < 4,
                self.desk@.len() == 16,
                line == line_of(self.desk@, m, k as int),
                numbers@ == line.take(j as int),
            decreases 4 - j,
        {
            let i = index_of(m, k, j);
            numbers.push(self.desk[i]);
            proof {
                assert(line.take(j + 1) =~= line.take(j as int).push(line[j as int]));
            }
            j += 1;
        }
        assert(numbers@ =~= line);
        numbers
    }

    /// Collapses line `k` towards the edge that `m` names and adds the score
    /// that this brings. Says whether any cell of the line changed.
    fn collapse_line(&mut self, m: Move, k: usize) -> (changed: bool)
        requires
            old(self).desk@.len() == 16,
            k < 4,
            m != Move::NONE,
            old(self).score + collapse_gain(line_of(old(self).desk@, m, k as int)) <= u32::MAX,
        ensures
            final(self).desk@.len() == 16,
            final(self).rng == old(self).rng,
            final(self).score == old(self).score + collapse_gain(
                line_of(old(self).desk@, m, k as int),
            ),
            forall|i: int|
                0 <= i < 16 ==> #[trigger] final(self).desk@[i] == if line_no(m, i) == k {
                    collapsed(line_of(old(self).desk@, m, k as int))[line_pos(m, i)]
                } else {
                    old(self).desk@[i]
                },
            changed == line_changes(old(self).desk@, m, k as int),
    {
        let ghost before = self.desk@;
        let ghost line = line_of(before, m, k as int);
        let numbers = self.read_line(m, k);
        proof {
            lemma_collapsed_len(line);
        }

        let (collapsed_row, score) = Super2048::collapse_left(numbers.as_slice());

        let mut changed = false;
        let mut j: usize = 0;
        while j < 4
            invariant
                j <= 4,
                k < 4,
                before.len() == 16,
                self.desk@.len() == 16,
                self.rng == old(self).rng,
                self.score == old(self).score,
                line == line_of(before, m, k as int),
                collapsed_row@ == collapsed(line),
                collapsed_row@.len() == 4,
                forall|i: int|
                    0 <= i < 16 ==> #[trigger] self.desk@[i] == if line_no(m, i) == k && line_pos(
                        m,
                        i,
                    ) < j {
                        collapsed_row@[line_pos(m, i)]
                    } else {
                        before[i]
                    },
                changed == exists|p: int| 0 <= p < j && #[trigger] collapsed_row@[p] != line[p],
            decreases 4 - j,
        {
            let i = index_of(m, k, j);
            let new_value = collapsed_row[j];
            if !changed && new_value != self.desk[i] {
                changed = true;
            }
            self.desk.set(i, new_value);
            j += 1;
        }

        self.score += score;
        proof {
            if changed {
                let p = choose|p: int| 0 <= p < 4 && #[trigger] collapsed_row@[p] != line[p];
                assert(collapsed(line) != line);
            } else {
                assert(collapsed(line) =~= line);
            }
        }
        changed
    }

    /// Collapses every line towards the edge that `m` names and adds the score
    /// that this brings. Says whether any cell changed.
    fn collapse_lines(&mut self, m: Move) -> (changed: bool)
        requires
            old(self).wf(),
            old(self)@.score + slide_gain(old(self)@.cells, m) <= u32::MAX,
            m != Move::NONE,
        ensures
            final(self).wf(),
            final(self)@ == old(self)@.collapsed_by(m),
            changed == (final(self)@.cells != old(self)@.cells),
            final(self).rng == old(self).rng,
    {
        let ghost start = self.desk@;
        let ghost start_score = self.score;
        let mut changed = false;
        let mut k: usize = 0;
        while k < 4
            invariant
                k <= 4,
                m != Move::NONE,
                start.len() == 16,
                self.desk@.len() == 16,
                self.rng == old(self).rng,
                start_score + gain_upto(start, m, 4) <= u32::MAX,
                self.score == start_score + gain_upto(start, m, k as nat),
                forall|i: int|
                    0 <= i < 16 ==> #[trigger] self.desk@[i] == if line_no(m, i) < k {
                        slid(start, m)[i]
                    } else {
                        start[i]
                    },
                changed == changes_upto(start, m, k as nat),
            decreases 4 - k,
        {
            let ghost line = line_of(start, m, k as int);
            proof {
                assert(line_of(self.desk@, m, k as int) =~= line);
                reveal_with_fuel(gain_upto, 5);
            }
            let line_changed = self.collapse_line(m, k);
            if !changed && line_changed {
                changed = true;
            }
            k += 1;
        }
        proof {
            assert(self.desk@ =~= slid(start, m));
            lemma_slid_keeps_tiles(start, m);
            lemma_changes(start, m);
        }
        changed
    }

    /// Collapses every row: to the right if `reversed`, else to the left.
    pub fn collapse_cols(&mut self, reversed: bool) -> (changed: bool)
        requires
            old(self).wf(),
            old(self)@.score + slide_gain(
                old(self)@.cells,
                if reversed {
                    Move::RIGHT
                } else {
                    Move::LEFT
                },
            ) <= u32::MAX,
        ensures
            final(self).wf(),
            final(self)@ == old(self)@.collapsed_by(
                if reversed {
                    Move::RIGHT
                } else {
                    Move::LEFT
                },
            ),
            changed == (final(self)@.cells != old(self)@.cells),
    {
        if reversed {
            self.collapse_lines(Move::RIGHT)
        } else {
            self.collapse_lines(Move::LEFT)
        }
    }

    /// Collapses every column: downwards if `reversed`, else upwards.
    pub fn collapse_rows(&mut self, reversed: bool) -> (changed: bool)
        requires
            old(self).wf(),
            old(self)@.score + slide_gain(
                old(self)@.cells,
                if reversed {
                    Move::DOWN
                } else {
                    Move::UP
                },
            ) <= u32::MAX,
        ensures
            final(self).wf(),
            final(self)@ == old(self)@.collapsed_by(
                if reversed {
                    Move::DOWN
                } else {
                    Move::UP
                },
            ),
            changed == (final(self)@.cells != old(self)@.cells),
    {
        if reversed {
            self.collapse_lines(Move::DOWN)
        } else {
            self.collapse_lines(Move::UP)
        }
    }

    /// The free cells, in row-major order, each as its row and column.
    pub fn free_positions(&self) -> (free: Vec<(usize, usize)>)
        requires
            self.wf(),
        ensures
            free@ == free_cells(self@.cells),
            free@.len() > 0 <==> has_free(self@.cells),
    {
        let mut free: Vec<(usize, usize)> = Vec::new();
        let mut r: usize = 0;
        while r < 4
            invariant
                r <= 4,
                self.desk@.len() == 16,
                free@ == free_upto(self.desk@, (4 * r) as nat),
            decreases 4 - r,
        {
            let mut c: usize = 0;
            while c < 4
                invariant
                    r < 4,
                    c <= 4,
                    self.desk@.len() == 16,
                    free@ == free_upto(self.desk@, (4 * r + c) as nat),
                decreases 4 - c,
            {
                if self.desk[r * 4 + c] == 0 {
                    free.push((r, c));
                }
                c += 1;
            }
            r += 1;
        }
        proof {
            if free@.len() > 0 {
                let p = free@[0];
                assert(free@.contains(p));
                lemma_free_member(self.desk@, p);
                assert(self.desk@[4 * p.0 + p.1] == 0);
            }
            if has_free(self.desk@) {
                lemma_free_not_empty(self.desk@);
            }
        }
        free
    }

    /// Whether a move can still change the board.
    pub fn has_moves(&self) -> (yes: bool)
        requires
            self.wf(),
        ensures
            yes == can_move(self@.cells),
    {
        if self.free_positions().len() > 0 {
            true
        } else {
            let mut row: usize = 0;
            while row < 4
                invariant
                    row <= 4,
                    self.desk@.len() == 16,
                    !has_free(self.desk@),
                    forall|r: int, c: int|
                        0 <= r < row && 0 <= c < 4 ==> !#[trigger] pair_at(self.desk@, r, c),
                decreases 4 - row,
            {
                let mut col: usize = 0;
                while col < 4
                    invariant
                        row < 4,
                        col <= 4,
                        self.desk@.len() == 16,
                        !has_free(self.desk@),
                        forall|r: int, c: int|
                            0 <= r < row && 0 <= c < 4 ==> !#[trigger] pair_at(self.desk@, r, c),
                        forall|c: int| 0 <= c < col ==> !#[trigger] pair_at(
                            self.desk@,
                            row as int,
                            c,
                        ),
                    decreases 4 - col,
                {
                    if (row < 3 && self.desk[row * 4 + col] == self.desk[(row + 1) * 4 + col]) || (
                    col < 3 && self.desk[row * 4 + col] == self.desk[row * 4 + col + 1]) {
                        assert(self.desk@[4 * row + col] != 0);
                        assert(pair_at(self.desk@, row as int, col as int));
                        return true;
                    }
                    col += 1;
                }
                row += 1;
            }
            false
        }
    }

    /// Puts `number` into the cell in row `row`, column `col`, if that is a new
    /// tile for a free cell of the board: a 2 or a 4. Says whether it did.
    pub fn place_tile(&mut self, row: usize, col: usize, number: u32) -> (placed: bool)
        requires
            old(self).wf(),
        ensures
            final(self).wf(),
            final(self)@.score == old(self)@.score,
            placed == (row < 4 && col < 4 && old(self)@.cells[4 * row + col] == 0 && (number == 2
                || number == 4)),
            placed ==> final(self)@.cells == old(self)@.cells.update(4 * row + col, number),
            !placed ==> *final(self) == *old(self),
    {
        if row < 4 && col < 4 && (number == 2 || number == 4) && self.desk[row * 4 + col] == 0 {
            proof {
                lemma_new_tiles();
            }
            self.desk.set(row * 4 + col, number);
            true
        } else {
            false
        }
    }

    /// The spawn rule: a 2 or a 4, chosen at random, comes into a free cell
    /// chosen at random.
    pub fn put_number(&mut self)
        requires
            old(self).wf(),
            has_free(old(self)@.cells),
        ensures
            final(self).wf(),
            final(self)@.score == old(self)@.score,
            spawned(old(self)@.cells, final(self)@.cells),
    {
        let choices: [u32; 2] = [2, 4];
        let free = self.free_positions();
        let position = pick_one(&mut self.rng, free.as_slice());
        let number = pick_one(&mut self.rng, choices.as_slice());
        let (row, col) = position.unwrap();
        let number = number.unwrap();
        proof {
            lemma_free_member(self.desk@, (row, col));
            assert(number == 2 || number == 4) by {
                let j = choose|j: int| 0 <= j < 2 && choices@[j] == number;
            }
        }
        self.place_tile(row, col, number);
        assert(self.desk@[4 * row + col] == number);
    }

    /// Whether every cell is free or holds a tile.
    fn holds_tiles(cells: &Vec<u32>) -> (yes: bool)
        ensures
            yes == all_tiles(cells@),
    {
        let mut i: usize = 0;
        while i < cells.len()
            invariant
                i <= cells.len(),
                forall|j: int| 0 <= j < i ==> cells@[j] == 0 || is_tile(#[trigger] cells@[j]),
            decreases cells.len() - i,
        {
            let value = cells[i];
            if value != 0 && !is_tile_value(value) {
                return false;
            }
            i += 1;
        }
        true
    }

    /// The game that shows the given rows, with no score; `None` unless there
    /// are four rows of four cells, each 0 or a tile.
    pub fn from_rows(rows: Vec<Vec<u32>>, rng: StdRng) -> (made: Option<Super2048>)
        ensures
            made is Some <==> rows_fit(rows@),
            made matches Some(game) ==> {
                &&& game.wf()
                &&& game@.cells == cells_of_rows(rows@)
                &&& game@.score == 0
            },
    {
        if rows.len() != 4 {
            return None;
        }
        let mut desk: Vec<u32> = Vec::new();
        let mut r: usize = 0;
        while r < 4
            invariant
                r <= 4,
                rows@.len() == 4,
                desk@.len() == 4 * r,
                forall|q: int| 0 <= q < r ==> (#[trigger] rows@[q])@.len() == 4,
                forall|i: int| 0 <= i < 4 * r ==> #[trigger] desk@[i] == rows@[i / 4]@[i % 4],
            decreases 4 - r,
        {
            if rows[r].len() != 4 {
                return None;
            }
            let mut c: usize = 0;
            while c < 4
                invariant
                    r < 4,
                    c <= 4,
                    rows@.len() == 4,
                    rows@[r as int]@.len() == 4,
                    desk@.len() == 4 * r + c,
                    forall|i: int|
                        0 <= i < 4 * r + c ==> #[trigger] desk@[i] == rows@[i / 4]@[i % 4],
                decreases 4 - c,
            {
                desk.push(rows[r][c]);
                c += 1;
            }
            r += 1;
        }
        assert(desk@ =~= cells_of_rows(rows@));
        if Super2048::holds_tiles(&desk) {
            Some(Super2048 { desk, score: 0, rng })
        } else {
            None
        }
    }

    /// The board as four rows of four cells.
    pub fn desk(&self) -> (rows: Vec<Vec<u32>>)
        requires
            self.wf(),
        ensures
            rows@.len() == 4,
            forall|r: int| 0 <= r < 4 ==> (#[trigger] rows@[r])@ == line_of(
                self@.cells,
                Move::LEFT,
                r,
            ),
    {
        let mut rows: Vec<Vec<u32>> = Vec::new();
        let mut r: usize = 0;
        while r < 4
            invariant
                r <= 4,
                self.desk@.len() == 16,
                rows@.len() == r,
                forall|q: int| 0 <= q < r ==> (#[trigger] rows@[q])@ == line_of(
                    self.desk@,
                    Move::LEFT,
                    q,
                ),
            decreases 4 - r,
        {
            let mut row: Vec<u32> = Vec::new();
            let mut c: usize = 0;
            while c < 4
                invariant
                    r < 4,
                    c <= 4,
                    self.desk@.len() == 16,
                    row@.len() == c,
                    forall|j: int| 0 <= j < c ==> row@[j] == self.desk@[4 * r + j],
                decreases 4 - c,
            {
                row.push(self.desk[r * 4 + c]);
                c += 1;
            }
            assert(row@ =~= line_of(self.desk@, Move::LEFT, r as int));
            rows.push(row);
            r += 1;
        }
        rows
    }

    /// The value in a cell: a tile's value, or 0 for a free cell.
    pub fn cell(&self, row: usize, col: usize) -> (value: u32)
        requires
            self.wf(),
            row < 4,
            col < 4,
        ensures
            value == at(self@.cells, row as int, col as int),
            value == 0 || is_tile(value),
    {
        self.desk[row * 4 + col]
    }

    /// The five colours of the tiles, in the order in which they take turns.
    pub fn colors(&self) -> (colors: Vec<Color>)
        ensures
            colors@ == palette(),
    {
        let mut colors: Vec<Color> = Vec::new();
        colors.push(Color::WHITE);
        colors.push(Color::CYAN);
        colors.push(Color::GREEN);
        colors.push(Color::MAGENTA);
        colors.push(Color::RED);
        assert(colors@ =~= palette());
        colors
    }

    /// The colour that the tile `n` is shown in.
    pub fn get_color(&self, n: u32) -> (color: Color)
        requires
            is_tile(n),
        ensures
            color == tile_color(n),
    {
        let ghost top = choose|k: nat| 1 <= k <= 31 && n == #[trigger] pow2(k);
        let mut power: usize = 0;
        let mut rest: u32 = n;
        proof {
            lemma2_to64();
        }
        while rest > 1
            invariant
                power <= top <= 31,
                rest == pow2((top - power) as nat),
                pow2(0) == 1,
            decreases rest,
        {
            proof {
                lemma_pow2_unfold((top - power) as nat);
            }
            rest = rest / 2;
            power += 1;
        }
        proof {
            if power < top {
                lemma_pow2_strictly_increases(0, (top - power) as nat);
            }
            lemma_exponent(top);
        }
        let position = (power - 1) % 5;
        let colors = self.colors();
        colors[position]
    }

    /// What a number is shown as: its decimal digits below 1024, `1K` from there on.
    pub fn fmt_number(n: u32) -> (text: String)
        ensures
            text@ == number_label(n),
    {
        if n < 1024 {
            decimal_string(n)
        } else {
            "1K".to_owned()
        }
    }
}

impl Game for Super2048 {
    open spec fn wf(&self) -> bool {
        self@.wf()
    }

    open spec fn room(&self, m: Move) -> bool {
        self@.room_for(m)
    }

    open spec fn over(&self) -> bool {
        self@.finished()
    }

    open spec fn points(&self) -> nat {
        self@.score
    }

    open spec fn face(&self, row: int, col: int) -> (Seq<char>, Color) {
        tile_face(at(self@.cells, row, col))
    }

    /// A new game: an empty board onto which two tiles have come, and no score.
    fn new(rng: StdRng) -> (game: Super2048)
        ensures
            game.wf(),
            game@.score == 0,
            exists|first: Seq<u32>| #[trigger]
                spawned(blank_cells(), first) && spawned(first, game@.cells),
    {
        let mut desk: Vec<u32> = Vec::new();
        let mut i: usize = 0;
        while i < 16
            invariant
                i <= 16,
                desk@.len() == i,
                forall|j: int| 0 <= j < i ==> desk@[j] == 0,
            decreases 16 - i,
        {
            desk.push(0);
            i += 1;
        }
        assert(desk@ =~= blank_cells());
        let mut game = Super2048 { desk, score: 0, rng };
        assert(game.desk@[0] == 0);
        game.put_number();
        let ghost first = game.desk@;
        proof {
            let i = choose|i: int|
                0 <= i < 16 && blank_cells()[i] == 0 && (first[i] == 2 || first[i] == 4) && first
                    == #[trigger] blank_cells().update(i, first[i]);
            if i == 0 {
                assert(first[1] == 0);
            } else {
                assert(first[0] == 0);
            }
        }
        game.put_number();
        proof {
            assert(spawned(blank_cells(), first) && spawned(first, game.desk@));
            lemma_small_board(game.desk@);
            assert forall|m: Move| #[trigger] game.room(m) by {
                lemma_slide_gain_bound(game.desk@, m);
            }
        }
        game
    }

    fn is_valid(&self) -> (ok: bool) {
        self.desk.len() == 16 && Super2048::holds_tiles(&self.desk)
    }

    /// Whether no move can change the board any more.
    fn is_finished(&self) -> (done: bool)
        ensures
            done == self@.finished(),
    {
        !self.has_moves()
    }

    fn has_room(&self, m: Move) -> (yes: bool) {
        let mut gain: u64 = 0;
        if m != Move::NONE {
            let mut k: usize = 0;
            while k < 4
                invariant
                    k <= 4,
                    m != Move::NONE,
                    self.desk@.len() == 16,
                    gain == gain_upto(self.desk@, m, k as nat),
                    gain <= k * 0x4_0000_0000,
                decreases 4 - k,
            {
                let numbers = self.read_line(m, k);
                proof {
                    let line = line_of(self.desk@, m, k as int);
                    lemma_collapse_gain_bound(line);
                    lemma_sum_of_four(line);
                }
                gain = gain + Super2048::line_gain(numbers.as_slice());
                k += 1;
            }
        }
        self.score as u64 + gain <= 0xffff_ffff
    }

    /// Makes the move `m` unless the game is finished, and says whether it did.
    ///
    /// A move collapses the lines towards the edge that `m` names. A tile
    /// comes only if that changed the board; `NONE` changes nothing.
    fn apply_move(&mut self, m: Move) -> (applied: bool)
        ensures
            final(self).wf(),
            applied == !old(self)@.finished(),
            applied ==> old(self)@.follows(m, final(self)@),
            !applied ==> *final(self) == *old(self),
    {
        if self.is_finished() {
            false
        } else {
            let collapsed = match m {
                Move::LEFT => self.collapse_cols(false),
                Move::RIGHT => self.collapse_cols(true),
                Move::UP => self.collapse_rows(false),
                Move::DOWN => self.collapse_rows(true),
                _ => false,
            };
            if collapsed {
                proof {
                    lemma_change_frees(old(self).desk@, m);
                }
                self.put_number();
            }
            true
        }
    }

    /// The sum of the values of all merges so far.
    fn score(&self) -> (points: u32)
        ensures
            points == self@.score,
    {
        self.score
    }

    /// The rows and columns of the window that shows the board.
    fn window_size(&self) -> (size: (u32, u32))
        ensures
            size == (4u32, 16u32),
    {
        (4, 16)
    }

    fn cell_face(&self, row: usize, col: usize) -> (face: (String, Color)) {
        let value = self.desk[row * 4 + col];
        if value == 0 {
            (".".to_owned(), Color::YELLOW)
        } else {
            (Super2048::fmt_number(value), self.get_color(value))
        }
    }
}

} // verus!
