//! The sliding puzzle: fifteen numbered tiles and one blank on a 4×4 board.
//!
//! A move names the direction in which a tile slides into the blank, so the
//! blank itself travels the other way.

use rand::rngs::StdRng;
use vstd::prelude::*;
use crate::game::Game;
use crate::moves::{Move, MoveSet};
use crate::parity::{
    exchanged, goal_tiles, is_shuffle, later_greater, lemma_contains_push, lemma_exchange_flips,
    lemma_goal_is_shuffle, lemma_goal_is_solvable, lemma_later_greater_push,
    lemma_reordering_is_shuffle, ordered_pairs, solvable,
};
use crate::random::shuffle;
use crate::utils::{decimal, decimal_string, Color};

verus! {

/// The board's width and height.
pub const SIZE: usize = 4;

/// A puzzle as a mathematical value: the sixteen cells in row-major order,
/// where the blank is, and how many moves were made.
pub struct Puzzle {
    pub cells: Seq<u32>,
    pub blank_row: int,
    pub blank_col: int,
    pub moves: nat,
}

/// The solved board: 1 to 15 in row-major order, the blank last.
pub open spec fn goal_cells() -> Seq<u32> {
    Seq::new(
        16,
        |i: int|
            if i < 15 {
                (i + 1) as u32
            } else {
                0u32
            },
    )
}

/// What a cell shows: a dot in yellow for the blank, the tile's number in cyan.
pub open spec fn tile_face(value: u32) -> (Seq<char>, Color) {
    if value == 0 {
        ("."@, Color::YELLOW)
    } else {
        (decimal(value as nat), Color::CYAN)
    }
}

impl Puzzle {
    /// The blank's place in `cells`.
    pub open spec fn blank_index(self) -> int {
        4 * self.blank_row + self.blank_col
    }

    /// The cells hold each of 0 to 15 once, and the recorded blank position is
    /// on the board and is where the 0 lies.
    pub open spec fn wf(self) -> bool {
        &&& self.cells.len() == 16
        &&& 0 <= self.blank_row < 4
        &&& 0 <= self.blank_col < 4
        &&& self.cells[self.blank_index()] == 0
        &&& self.cells.no_duplicates()
        &&& forall|i: int| 0 <= i < 16 ==> #[trigger] self.cells[i] < 16
    }

    /// Whether `m` keeps the blank on the board.
    pub open spec fn allows(self, m: Move) -> bool {
        match m {
            Move::LEFT => self.blank_col != 3,
            Move::RIGHT => self.blank_col != 0,
            Move::UP => self.blank_row != 3,
            Move::DOWN => self.blank_row != 0,
            Move::NONE => false,
        }
    }

    /// The row that the blank is in after `m`.
    pub open spec fn next_row(self, m: Move) -> int {
        match m {
            Move::UP => self.blank_row + 1,
            Move::DOWN => self.blank_row - 1,
            _ => self.blank_row,
        }
    }

    /// The column that the blank is in after `m`.
    pub open spec fn next_col(self, m: Move) -> int {
        match m {
            Move::LEFT => self.blank_col + 1,
            Move::RIGHT => self.blank_col - 1,
            _ => self.blank_col,
        }
    }

    /// The puzzle after the allowed move `m`: the tile next to the blank takes
    /// the blank's cell, the blank takes the tile's, and the count goes up by one.
    pub open spec fn after(self, m: Move) -> Puzzle {
        let target = 4 * self.next_row(m) + self.next_col(m);
        Puzzle {
            cells: self.cells.update(self.blank_index(), self.cells[target]).update(target, 0),
            blank_row: self.next_row(m),
            blank_col: self.next_col(m),
            moves: self.moves + 1,
        }
    }

    /// The tiles stand in order, with the blank in the last cell.
    pub open spec fn solved(self) -> bool {
        self.cells == goal_cells()
    }

    /// The fifteen tiles in row-major order: the cells without the blank.
    pub open spec fn tiles(self) -> Seq<u32> {
        self.cells.remove(self.blank_index())
    }

    /// The puzzle passes the parity test, taken with the row that its blank is in.
    pub open spec fn passes(self) -> bool {
        solvable(self.tiles(), self.blank_row as nat)
    }
}

pub struct Little15 {
    desk: Vec<u32>,
    empty_pos: (usize, usize),
    num_of_moves: u32,
}

impl View for Little15 {
    type V = Puzzle;

    closed spec fn view(&self) -> Puzzle {
        Puzzle {
            cells: self.desk@,
            blank_row: self.empty_pos.0 as int,
            blank_col: self.empty_pos.1 as int,
            moves: self.num_of_moves as nat,
        }
    }
}

impl Little15 {
    /// The moves that keep the blank on the board.
    pub fn available_moves(&self) -> (moves: MoveSet)
        requires
            self.wf(),
        ensures
            moves@ == Set::new(|m: Move| self@.allows(m)),
    {
        let mut moves = MoveSet::new();

        moves.insert(Move::LEFT);
        moves.insert(Move::RIGHT);
        moves.insert(Move::UP);
        moves.insert(Move::DOWN);

        let (row, col) = self.empty_pos;
        if col == 0 {
            moves.remove(&Move::RIGHT);
        } else if col == SIZE - 1 {
            moves.remove(&Move::LEFT);
        }

        if row == 0 {
            moves.remove(&Move::DOWN);
        } else if row == SIZE - 1 {
            moves.remove(&Move::UP);
        }

        assert(moves@ =~= Set::new(|m: Move| self@.allows(m)));
        moves
    }

    /// The parity test on a row-major list of tiles, with the number of the
    /// blank's row, counted from 0 at the top.
    pub fn _is_solvable(data: &[u32], zero_row: u32) -> (yes: bool)
        ensures
            yes == solvable(data@, zero_row as nat),
    {
        let mut odd = zero_row % 2 == 1;
        let mut n: u32 = 1;
        while n < 16
            invariant
                1 <= n <= 16,
                odd == ((ordered_pairs(data@, (n - 1) as nat) + zero_row) % 2 == 1),
            decreases 16 - n,
        {
            let mut found = false;
            let mut i: usize = 0;
            while i < data.len()
                invariant
                    i <= data.len(),
                    1 <= n < 16,
                    found == data@.take(i as int).contains(n),
                    odd == ((ordered_pairs(data@, (n - 1) as nat) + later_greater(
                        data@.take(i as int),
                        n,
                    ) + zero_row) % 2 == 1),
                decreases data.len() - i,
            {
                let x = data[i];
                proof {
                    assert(data@.take(i + 1) =~= data@.take(i as int).push(x));
                    lemma_later_greater_push(data@.take(i as int), x, n);
                    lemma_contains_push(data@.take(i as int), x, n);
                }
                if found && x > n {
                    odd = !odd;
                }
                if x == n {
                    found = true;
                }
                i += 1;
            }
            assert(data@.take(i as int) =~= data@);
            n += 1;
        }
        !odd
    }

    /// Whether `values` holds no value twice and only values from `low` to `high`.
    fn holds_each_once(values: &Vec<u32>, low: u32, high: u32) -> (yes: bool)
        requires
            high < 16,
        ensures
            yes == (values@.no_duplicates() && forall|i: int|
                0 <= i < values@.len() ==> low <= #[trigger] values@[i] <= high),
    {
        let mut seen: [bool; 16] = [false; 16];
        let mut i: usize = 0;
        while i < values.len()
            invariant
                i <= values.len(),
                high < 16,
                values@.take(i as int).no_duplicates(),
                forall|j: int| 0 <= j < i ==> low <= #[trigger] values@[j] <= high,
                forall|v: int|
                    0 <= v < 16 ==> #[trigger] seen@[v] == values@.take(i as int).contains(
                        v as u32,
                    ),
            decreases values.len() - i,
        {
            let t = values[i];
            if t < low || t > high {
                return false;
            }
            if seen[t as usize] {
                proof {
                    let j = choose|j: int| 0 <= j < i && values@.take(i as int)[j] == t;
                    assert(values@[j] == values@[i as int]);
                }
                return false;
            }
            proof {
                let shorter = values@.take(i as int);
                let longer = values@.take(i + 1);
                assert(longer =~= shorter.push(t));
                assert forall|v: int| 0 <= v < 16 implies seen@.update(t as int, true)[v]
                    == longer.contains(v as u32) by {
                    lemma_contains_push(shorter, t, v as u32);
                }
            }
            seen[t as usize] = true;
            i += 1;
        }
        assert(values@.take(i as int) =~= values@);
        true
    }

    /// The puzzle that shows `tiles` in row-major order, with the blank in the
    /// last cell and no move made; `None` unless `tiles` holds each of 1 to 15 once.
    pub fn from_tiles(tiles: Vec<u32>) -> (made: Option<Little15>)
        ensures
            made is Some <==> is_shuffle(tiles@),
            made matches Some(game) ==> {
                &&& game.wf()
                &&& game@.cells == tiles@.push(0)
                &&& game@.blank_row == 3
                &&& game@.blank_col == 3
                &&& game@.moves == 0
            },
    {
        if tiles.len() == 15 && Little15::holds_each_once(&tiles, 1, 15) {
            Some(Little15::deal(tiles))
        } else {
            None
        }
    }

    /// Lays fifteen shuffled tiles out on the board.
    fn deal(tiles: Vec<u32>) -> (game: Little15)
        requires
            is_shuffle(tiles@),
        ensures
            game.wf(),
            game@.cells == tiles@.push(0),
            game@.blank_row == 3,
            game@.blank_col == 3,
            game@.moves == 0,
    {
        let mut desk = tiles;
        desk.push(0);
        Little15 { desk, empty_pos: (3, 3), num_of_moves: 0 }
    }

    /// The tiles 1 to 15 in order.
    fn sorted_tiles() -> (tiles: Vec<u32>)
        ensures
            tiles@ == goal_tiles(),
    {
        let mut tiles: Vec<u32> = Vec::new();
        let mut n: u32 = 1;
        while n < 16
            invariant
                1 <= n <= 16,
                tiles@.len() == n - 1,
                forall|j: int| 0 <= j < n - 1 ==> tiles@[j] == j + 1,
            decreases 16 - n,
        {
            tiles.push(n);
            n += 1;
        }
        assert(tiles@ =~= goal_tiles());
        tiles
    }

    /// The blank's row and column.
    pub fn blank_pos(&self) -> (pos: (usize, usize))
        ensures
            pos.0 == self@.blank_row,
            pos.1 == self@.blank_col,
    {
        self.empty_pos
    }

    /// The value in a cell: a tile's number, or 0 for the blank.
    pub fn cell(&self, row: usize, col: usize) -> (value: u32)
        requires
            self.wf(),
            row < 4,
            col < 4,
        ensures
            value == self@.cells[4 * row + col],
    {
        self.desk[row * SIZE + col]
    }
}

impl Game for Little15 {
    open spec fn wf(&self) -> bool {
        self@.wf()
    }

    /// The count of moves can grow by one, if `m` is a move that counts.
    open spec fn room(&self, m: Move) -> bool {
        self@.allows(m) ==> self@.moves < u32::MAX
    }

    open spec fn over(&self) -> bool {
        self@.solved()
    }

    open spec fn points(&self) -> nat {
        self@.moves
    }

    open spec fn face(&self, row: int, col: int) -> (Seq<char>, Color) {
        tile_face(self@.cells[4 * row + col])
    }

    /// A freshly shuffled puzzle: the blank in the bottom-right corner, no move
    /// made, and the tiles in an order that passes the parity test for row 3.
    ///
    /// The tiles are reshuffled until they pass. The loop counts its draws and
    /// stops after `u64::MAX` of them, handing out the tiles in order; no run
    /// will ever get there.
    fn new(rng: StdRng) -> (game: Little15)
        ensures
            game.wf(),
            game@.blank_row == 3,
            game@.blank_col == 3,
            game@.moves == 0,
            is_shuffle(game@.tiles()),
            game@.passes(),
    {
        let mut rng = rng;
        let mut numbers = Little15::sorted_tiles();
        proof {
            lemma_goal_is_shuffle();
        }
        let mut passed = false;
        let mut draws: u64 = 0;
        while !passed && draws < u64::MAX
            invariant
                is_shuffle(numbers@),
                passed ==> solvable(numbers@, 3),
            decreases u64::MAX - draws,
        {
            let ghost before = numbers@;
            shuffle(&mut rng, &mut numbers);
            proof {
                lemma_reordering_is_shuffle(before, numbers@);
            }
            passed = Little15::_is_solvable(numbers.as_slice(), 3);
            draws += 1;
        }
        if !passed {
            numbers = Little15::sorted_tiles();
            proof {
                lemma_goal_is_shuffle();
                lemma_goal_is_solvable(3);
            }
        }
        let ghost tiles = numbers@;
        let game = Little15::deal(numbers);
        assert(game@.tiles() =~= tiles);
        game
    }

    fn is_valid(&self) -> (ok: bool) {
        self.desk.len() == 16 && self.empty_pos.0 < 4 && self.empty_pos.1 < 4
            && self.desk[self.empty_pos.0 * SIZE + self.empty_pos.1] == 0
            && Little15::holds_each_once(&self.desk, 0, 15)
    }

    /// Whether the puzzle is solved.
    ///
    /// Looks at the blank first, then walks the cells from the last to the
    /// first and asks each tile to be one less than the tile after it.
    fn is_finished(&self) -> (done: bool)
        ensures
            done == self@.solved(),
    {
        if self.empty_pos.0 != 3 || self.empty_pos.1 != 3 {
            assert(self@.cells[15] != 0);
            false
        } else {
            let mut prev: u32 = 0;
            let mut i: usize = 16;
            while i > 0
                invariant
                    i <= 16,
                    self.wf(),
                    self.desk@[15] == 0,
                    prev == if i == 16 {
                        0
                    } else {
                        self.desk@[i as int]
                    },
                    forall|j: int|
                        i <= j <= 14 ==> #[trigger] self.desk@[j] + (14 - j) == self.desk@[14],
                decreases i,
            {
                let n = self.desk[i - 1];
                if prev != 0 && prev != n + 1 {
                    assert(self.desk@[i as int] != self.desk@[i - 1] + 1);
                    assert(goal_cells()[i as int] == goal_cells()[i - 1] + 1);
                    return false;
                }
                proof {
                    if i <= 14 {
                        assert(self.desk@[i as int] != self.desk@[15]);
                    }
                }
                prev = n;
                i -= 1;
            }
            proof {
                assert(self.desk@[0] != self.desk@[15]);
                assert(self.desk@[0] + 14 == self.desk@[14]);
                assert(self.desk@ =~= goal_cells());
            }
            true
        }
    }

    fn has_room(&self, m: Move) -> (yes: bool) {
        !self.available_moves().contains(&m) || self.num_of_moves < u32::MAX
    }

    /// Slides a tile into the blank if `m` allows it, and says whether it did.
    ///
    /// The blank never leaves the board, and the recorded position stays the
    /// place of the 0: both are part of `wf`. A puzzle that passes the parity
    /// test goes on passing it.
    fn apply_move(&mut self, m: Move) -> (applied: bool)
        ensures
            final(self).wf(),
            applied == old(self)@.allows(m),
            applied ==> final(self)@ == old(self)@.after(m),
            !applied ==> *final(self) == *old(self),
            final(self)@.passes() == old(self)@.passes(),
    {
        proof {
            if self@.allows(m) {
                lemma_move_keeps_parity(self@, m);
            }
        }
        if self.available_moves().contains(&m) {
            let (row, col) = self.empty_pos;
            let (new_row, new_col) = match m {
                Move::LEFT => (row, col + 1),
                Move::RIGHT => (row, col - 1),
                Move::UP => (row + 1, col),
                Move::DOWN => (row - 1, col),
                Move::NONE => {
                    return false;
                },
            };
            let tile = self.desk[new_row * SIZE + new_col];
            self.desk.set(row * SIZE + col, tile);
            self.desk.set(new_row * SIZE + new_col, 0);
            self.empty_pos = (new_row, new_col);
            self.num_of_moves += 1;
            true
        } else {
            false
        }
    }

    /// The number of moves made so far: fewer is better.
    fn score(&self) -> (moves: u32)
        ensures
            moves == self@.moves,
    {
        self.num_of_moves
    }

    /// The rows and columns of the window that shows the board.
    fn window_size(&self) -> (size: (u32, u32))
        ensures
            size == (4u32, 16u32),
    {
        (4, 16)
    }

    fn cell_face(&self, row: usize, col: usize) -> (face: (String, Color)) {
        let value = self.desk[row * SIZE + col];
        if value == 0 {
            (".".to_owned(), Color::YELLOW)
        } else {
            (decimal_string(value), Color::CYAN)
        }
    }
}

/// The tiles of a well-formed puzzle hold each of 1 to 15 once.
pub proof fn lemma_tiles_are_shuffle(p: Puzzle)
    requires
        p.wf(),
    ensures
        is_shuffle(p.tiles()),
{
    let b = p.blank_index();
    let s = p.tiles();
    assert forall|i: int| 0 <= i < 15 implies 1 <= #[trigger] s[i] <= 15 by {
        let j = if i < b {
            i
        } else {
            i + 1
        };
        assert(s[i] == p.cells[j]);
        assert(p.cells[j] != p.cells[b]);
    }
    assert forall|i: int, k: int| 0 <= i < 15 && 0 <= k < 15 && i != k implies s[i] != s[k] by {
        let ii = if i < b {
            i
        } else {
            i + 1
        };
        let kk = if k < b {
            k
        } else {
            k + 1
        };
        assert(s[i] == p.cells[ii] && s[k] == p.cells[kk]);
    }
}

/// No move changes whether a puzzle passes the parity test. A move to the
/// left or right leaves the order of the tiles as it is; a move up or down
/// takes one tile past three others and the blank into the next row.
pub proof fn lemma_move_keeps_parity(p: Puzzle, m: Move)
    requires
        p.wf(),
        p.allows(m),
    ensures
        p.after(m).passes() == p.passes(),
{
    let q = p.after(m);
    let b = p.blank_index();
    let s = p.tiles();
    lemma_tiles_are_shuffle(p);
    match m {
        Move::UP => {
            let s1 = exchanged(s, b + 2);
            lemma_exchange_flips(s, b + 2);
            let s2 = exchanged(s1, b + 1);
            lemma_exchange_flips(s1, b + 1);
            let s3 = exchanged(s2, b);
            lemma_exchange_flips(s2, b);
            assert(q.tiles() =~= s3);
        },
        Move::DOWN => {
            let s1 = exchanged(s, b - 4);
            lemma_exchange_flips(s, b - 4);
            let s2 = exchanged(s1, b - 3);
            lemma_exchange_flips(s1, b - 3);
            let s3 = exchanged(s2, b - 2);
            lemma_exchange_flips(s2, b - 2);
            assert(q.tiles() =~= s3);
        },
        _ => {
            assert(q.tiles() =~= s);
        },
    }
}

/// An allowed move keeps the puzzle well formed: the blank stays on the board,
/// and the recorded position is where the 0 lies after the move as before it.
pub proof fn lemma_move_keeps_blank(p: Puzzle, m: Move)
    requires
        p.wf(),
        p.allows(m),
    ensures
        p.after(m).wf(),
        0 <= p.after(m).blank_row < 4,
        0 <= p.after(m).blank_col < 4,
        p.after(m).cells[p.after(m).blank_index()] == 0,
        forall|i: int| 0 <= i < 16 && p.after(m).cells[i] == 0 ==> i == p.after(m).blank_index(),
{
}

} // verus!
