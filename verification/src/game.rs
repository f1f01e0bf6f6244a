//! The contract that both games meet, so that a driver need not know which
//! one it runs.

use rand::rngs::StdRng;
use vstd::prelude::*;
use crate::moves::Move;
use crate::utils::Color;

verus! {

pub trait Game: Sized {
    /// The invariant of every game that the library hands out.
    spec fn wf(&self) -> bool;

    /// The counters leave room for the move `m`.
    spec fn room(&self, m: Move) -> bool;

    /// The game is finished.
    spec fn over(&self) -> bool;

    /// The score so far.
    spec fn points(&self) -> nat;

    /// What the cell in row `row`, column `col` shows: its text and its colour.
    spec fn face(&self, row: int, col: int) -> (Seq<char>, Color);

    /// A fresh game, which draws from `rng` whatever it leaves to chance.
    fn new(rng: StdRng) -> (game: Self)
        ensures
            game.wf(),
            game.points() == 0,
            forall|m: Move| #[trigger] game.room(m),
    ;

    /// Whether the game is well formed. Every game that the library hands out
    /// is, and stays so under its methods; a caller that cannot prove it can ask.
    fn is_valid(&self) -> (ok: bool)
        ensures
            ok == self.wf(),
    ;

    fn is_finished(&self) -> (done: bool)
        requires
            self.wf(),
        ensures
            done == self.over(),
    ;

    /// Whether the counters leave room for the move `m`, so that
    /// `apply_move` may be called with it.
    fn has_room(&self, m: Move) -> (yes: bool)
        requires
            self.wf(),
        ensures
            yes == self.room(m),
    ;

    /// Attempts a move and says whether the game took it. A move that is not
    /// taken leaves the game as it was, and no move lowers the score.
    fn apply_move(&mut self, m: Move) -> (applied: bool)
        requires
            old(self).wf(),
            old(self).room(m),
        ensures
            final(self).wf(),
            !applied ==> *final(self) == *old(self),
            old(self).points() <= final(self).points(),
    ;

    fn score(&self) -> (points: u32)
        ensures
            points == self.points(),
    ;

    /// The rows and columns of the window that shows the board.
    fn window_size(&self) -> (size: (u32, u32))
    ;

    /// What the cell in row `row`, column `col` shows: its text and its colour.
    fn cell_face(&self, row: usize, col: usize) -> (face: (String, Color))
        requires
            self.wf(),
            row < 4,
            col < 4,
        ensures
            face.0@ == self.face(row as int, col as int).0,
            face.1 == self.face(row as int, col as int).1,
    ;
}

} // verus!
