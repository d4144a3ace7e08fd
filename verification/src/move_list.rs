//! A list of scored moves that hands out, one at a time, the untried move
//! with the highest score when that score beats the first move's, and
//! otherwise the first move.
use vstd::prelude::*;
use crate::move_data::MoveData;

verus! {

pub struct MoveList {
    pub moves: Vec<MoveData>,
    pub scores: Vec<i32>,
    pub moves_tried: Vec<bool>,
}

/// `k` is the move `get_next_move` picks: the first untried move with the
/// highest score among the untried ones, provided that score beats the score
/// of the first move; otherwise the first move.
pub open spec fn is_next_move_index(scores: Seq<i32>, tried: Seq<bool>, k: int) -> bool {
    &&& 0 <= k < scores.len()
    &&& if k == 0 {
        forall|i: int| 0 <= i < scores.len() && !tried[i] ==> scores[i] <= scores[0]
    } else {
        &&& !tried[k]
        &&& scores[k] > scores[0]
        &&& forall|i: int| 0 <= i < scores.len() && !tried[i] ==> scores[i] <= scores[k]
        &&& forall|i: int| 0 <= i < k && !tried[i] ==> scores[i] < scores[k]
    }
}

impl MoveList {
    pub open spec fn wf(&self) -> bool {
        self.scores.len() == self.moves.len() && self.moves_tried.len() == self.moves.len()
    }

    pub fn new() -> (r: Self)
        ensures
            r.wf(),
            r.moves@.len() == 0,
    {
        MoveList { scores: Vec::new(), moves: Vec::new(), moves_tried: Vec::new() }
    }

    pub fn len(&self) -> (r: usize)
        ensures
            r == self.moves@.len(),
    {
        self.moves.len()
    }

    pub fn push(&mut self, move_data: MoveData, score: i32)
        requires
            old(self).wf(),
        ensures
            final(self).wf(),
            final(self).moves@ == old(self).moves@.push(move_data),
            final(self).scores@ == old(self).scores@.push(score),
            final(self).moves_tried@ == old(self).moves_tried@.push(false),
    {
        self.moves.push(move_data);
        self.scores.push(score);
        self.moves_tried.push(false);
    }

    /// Marks the chosen move as tried and returns it.
    pub fn get_next_move(&mut self) -> (r: MoveData)
        requires
            old(self).wf(),
            old(self).moves@.len() > 0,
        ensures
            final(self).wf(),
            exists|k: int|
                is_next_move_index(old(self).scores@, old(self).moves_tried@, k) && r == old(
                    self,
                ).moves@[k] && final(self).moves_tried@ == old(self).moves_tried@.update(k, true),
            final(self).moves@ == old(self).moves@,
            final(self).scores@ == old(self).scores@,
    {
        let mut best_move_i: usize = 0;
        let mut best_score = self.scores[0];
        let n = self.moves.len();
        let mut i: usize = 0;
        while i < n
            invariant
                self.wf(),
                n == self.moves@.len(),
                i <= n,
                best_move_i < n,
                best_score == self.scores@[best_move_i as int],
                best_move_i == 0 || (!self.moves_tried@[best_move_i as int] && best_score
                    > self.scores@[0]),
                forall|j: int| 0 <= j < i && !self.moves_tried@[j] ==> self.scores@[j]
                    <= best_score,
                forall|j: int| 0 <= j < best_move_i && !self.moves_tried@[j] ==> self.scores@[j]
                    < best_score,
                best_move_i == 0 || best_move_i < i,
            decreases n - i,
        {
            if !self.moves_tried[i] {
                let this_move_score = self.scores[i];
                if this_move_score > best_score {
                    best_move_i = i;
                    best_score = this_move_score;
                }
            }
            i = i + 1;
        }
        self.moves_tried[best_move_i] = true;
        self.moves[best_move_i]
    }
}

} // verus!
