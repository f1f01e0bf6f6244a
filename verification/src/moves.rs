//! The move vocabulary shared by both engines.

use vstd::prelude::*;

verus! {

/// A direction, or the inert `NONE`.
#[derive(Clone, Copy, Debug, PartialEq, Eq, Structural)]
pub enum Move {
    LEFT,
    RIGHT,
    UP,
    DOWN,
    NONE,
}

/// The small integer that stands for a move: 1 to 4 for the directions, 0 for `NONE`.
pub open spec fn move_code(m: Move) -> nat {
    match m {
        Move::LEFT => 1,
        Move::RIGHT => 2,
        Move::UP => 3,
        Move::DOWN => 4,
        Move::NONE => 0,
    }
}

/// The move that an integer stands for; every integer but 1 to 4 stands for `NONE`.
pub open spec fn move_of_code(v: nat) -> Move {
    if v == 1 {
        Move::LEFT
    } else if v == 2 {
        Move::RIGHT
    } else if v == 3 {
        Move::UP
    } else if v == 4 {
        Move::DOWN
    } else {
        Move::NONE
    }
}

impl Move {
    pub fn to_uint(&self) -> (code: usize)
        ensures
            code == move_code(*self),
    {
        match *self {
            Move::LEFT => 1,
            Move::RIGHT => 2,
            Move::UP => 3,
            Move::DOWN => 4,
            Move::NONE => 0,
        }
    }

    pub fn from_uint(v: usize) -> (m: Move)
        ensures
            m == move_of_code(v as nat),
    {
        match v {
            1 => Move::LEFT,
            2 => Move::RIGHT,
            3 => Move::UP,
            4 => Move::DOWN,
            _ => Move::NONE,
        }
    }
}

/// Decoding undoes encoding: every move comes back from its own code.
pub proof fn lemma_code_round_trip(m: Move)
    ensures
        move_of_code(move_code(m)) == m,
        move_code(m) <= 4,
{
}

/// A set of moves: one flag for each move, indexed by the move's code.
pub struct MoveSet {
    slots: [bool; 5],
}

impl View for MoveSet {
    type V = Set<Move>;

    closed spec fn view(&self) -> Set<Move> {
        Set::new(|m: Move| self.slots@[move_code(m) as int])
    }
}

impl MoveSet {
    /// The empty set.
    pub fn new() -> (set: MoveSet)
        ensures
            set@ == Set::<Move>::empty(),
    {
        let set = MoveSet { slots: [false; 5] };
        assert(set@ =~= Set::<Move>::empty());
        set
    }

    /// Adds `m`; says whether it was absent before.
    pub fn insert(&mut self, m: Move) -> (fresh: bool)
        ensures
            final(self)@ == old(self)@.insert(m),
            fresh == !old(self)@.contains(m),
    {
        let code: usize = m.to_uint();
        let fresh = !self.slots[code];
        self.slots[code] = true;
        assert(self@ =~= old(self)@.insert(m));
        fresh
    }

    /// Takes `m` out; says whether it was present before.
    pub fn remove(&mut self, m: &Move) -> (present: bool)
        ensures
            final(self)@ == old(self)@.remove(*m),
            present == old(self)@.contains(*m),
    {
        let code: usize = m.to_uint();
        let present = self.slots[code];
        self.slots[code] = false;
        assert(self@ =~= old(self)@.remove(*m));
        present
    }

    pub fn contains(&self, m: &Move) -> (present: bool)
        ensures
            present == self@.contains(*m),
    {
        self.slots[m.to_uint()]
    }
}

} // verus!
