//! The two most recent quiet moves that caused a cutoff at a ply.
use vstd::prelude::*;
use crate::move_data::{MoveData, null_move, spec_null_move, same_move, moves_equal};

verus! {

#[derive(Copy, Clone)]
pub struct KillerMoves {
    pub moves: [MoveData; 2],
}

impl KillerMoves {
    pub open spec fn spec_new() -> Self {
        KillerMoves { moves: [spec_null_move(), spec_null_move()] }
    }

    /// `after` is what `add_killer_move(new_move)` makes of `before`.
    pub open spec fn added(before: Self, new_move: MoveData, after: Self) -> bool {
        &&& same_move(before.moves@[0], new_move) ==> after.moves@ == before.moves@
        &&& !same_move(before.moves@[0], new_move) ==> after.moves@ == seq![
            new_move,
            before.moves@[0],
        ]
    }

    pub fn new() -> (r: Self)
        ensures
            r.moves@ == seq![spec_null_move(), spec_null_move()],
            r == Self::spec_new(),
    {
        let n = null_move();
        KillerMoves { moves: [n, n] }
    }

    /// Makes `new_move` the first killer and the old first killer the second,
    /// unless `new_move` already is the first killer.
    pub fn add_killer_move(&mut self, new_move: MoveData)
        ensures
            same_move(old(self).moves@[0], new_move) ==> final(self).moves@ == old(self).moves@,
            !same_move(old(self).moves@[0], new_move) ==> final(self).moves@ == seq![
                new_move,
                old(self).moves@[0],
            ],
    {
        if moves_equal(&self.moves[0], &new_move) {
            return;
        }
        let first = self.moves[0];
        self.moves[1] = first;
        self.moves[0] = new_move;
        proof {
            assert(self.moves@ =~= seq![new_move, old(self).moves@[0]]);
        }
    }

    pub fn is_killer(&self, data: MoveData) -> (r: bool)
        ensures
            r == (same_move(self.moves@[0], data) || same_move(self.moves@[1], data)),
    {
        moves_equal(&self.moves[0], &data) || moves_equal(&self.moves[1], &data)
    }
}

} // verus!
