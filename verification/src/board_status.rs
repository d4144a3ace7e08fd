//! Passing moves, repetitions, draws and the result of a finished game.
use vstd::prelude::*;
use crate::move_data::{MoveData, null_move, spec_null_move, same_move, moves_equal};
use crate::value_holder::{holder_model, model_push, model_pop};
use crate::piece_square_tables::ROOK_WORTH;
use crate::pieces::{WHITE_PAWN, BLACK_PAWN};
use crate::board::{
    Board, last_move_of, king_attacked, apply_move_view, occupancy_for, move_fits, lemma_apply_undo_fits,
    lemma_make_undo_restores,
};
use crate::movegen::{color_move, color_movable};

verus! {

impl Board {
    /// `self` is `before` after passing: the same placement, the null move
    /// appended, the other side to move, the fifty-move counter reset, one
    /// level deeper, and the key changed by the side-to-move and en-passant keys.
    pub open spec fn is_after_null_move(&self, before: &Board) -> bool {
        &&& self.view() == before.view()
        &&& self.color_bitboards == before.color_bitboards
        &&& self.moves@ == before.moves@.push(spec_null_move())
        &&& self.white_to_move == !before.white_to_move
        &&& self.board_state.index == before.board_state.index + 1
        &&& self.board_state.current.castling_rights == before.board_state.current.castling_rights
        &&& self.board_state.current.fifty_move_counter == 0
        &&& forall|k: int| 0 <= k <= before.board_state.index ==> #[trigger] self.board_state.history@[k] == before.board_state.history@[k]
        &&& self.zobrist.key.current == (before.zobrist.key.current ^ before.zobrist.side_key()) ^ before.zobrist.en_passant_key(
            before.zobrist.en_passant_file_of(),
        )
        &&& self.zobrist.key.index == before.zobrist.key.index + 1
        &&& forall|k: int| 0 <= k <= before.zobrist.key.index ==> #[trigger] self.zobrist.key.history@[k] == before.zobrist.key.history@[k]
        &&& self.zobrist.same_tables(&before.zobrist)
        &&& self.precalculated_move_data == before.precalculated_move_data
        &&& self.en_passant_file == before.en_passant_file
    }

    /// `self` is `before` with its last (passing) move taken back: the same
    /// placement, the move dropped, the side to move switched back, and the
    /// state and key recorded one level up current again.
    pub open spec fn is_after_null_undo(&self, before: &Board) -> bool {
        &&& self.view() == before.view()
        &&& self.color_bitboards == before.color_bitboards
        &&& self.moves@ == before.moves@.drop_last()
        &&& self.white_to_move == !before.white_to_move
        &&& self.board_state.index == before.board_state.index - 1
        &&& self.board_state.current.castling_rights == before.board_state.history@[before.board_state.index - 1].castling_rights
        &&& self.board_state.current.fifty_move_counter == before.board_state.history@[before.board_state.index - 1].fifty_move_counter
        &&& self.board_state.history@ == before.board_state.history@
        &&& holder_model(&self.zobrist.key) == model_pop(holder_model(&before.zobrist.key))
        &&& self.zobrist.same_tables(&before.zobrist)
        &&& self.precalculated_move_data == before.precalculated_move_data
        &&& self.en_passant_file == before.en_passant_file
    }

    /// Passes the move, unless the last move was itself a pass (a move equal
    /// to the null move): then nothing changes and `false` is returned.
    pub fn try_null_move(&mut self) -> (r: bool)
        requires
            old(self).wf(),
            old(self).moves@.len() + 1 < usize::MAX,
        ensures
            final(self).wf(),
            r == !same_move(last_move_of(old(self).moves@), spec_null_move()),
            r ==> final(self).is_after_null_move(old(self)),
            !r ==> *final(self) == *old(self),
    {
        let last = self.get_last_move();
        let null = null_move();
        if moves_equal(&last, &null) {
            return false;
        }
        self.white_to_move = !self.white_to_move;
        self.zobrist.make_null_move();
        self.moves.push(null);
        self.board_state.current.fifty_move_counter = 0;
        self.board_state.push();
        proof {
            assert(self.board_state.history@[self.board_state.index as int] == self.board_state.current);
            assert forall|k: int| 0 <= k <= self.board_state.index implies (#[trigger] self.board_state.history@[k]).castling_rights < 16 by {
                if k < self.board_state.index {
                    assert(self.board_state.history@[k] == old(self).board_state.history@[k]);
                }
            }
            assert(self.view() == old(self).view());
        }
        true
    }

    /// Takes back a passing move.
    pub fn undo_null_move(&mut self)
        requires
            old(self).wf(),
            old(self).moves@.len() > 0,
        ensures
            final(self).wf(),
            final(self).is_after_null_undo(old(self)),
    {
        self.white_to_move = !self.white_to_move;
        self.zobrist.key.pop();
        self.moves.pop();
        self.board_state.pop();
        // The restored state's attack caches may describe another placement; drop them.
        self.board_state.current.attacked_squares = [None, None];
        proof {
            assert(self.view() == old(self).view());
        }
    }
}

/// Passing and then taking the pass back restores the placement, the move
/// list, the side to move, the castling rights, the fifty-move counter, the
/// undo depth, the Zobrist key and the states recorded up to that depth.
pub proof fn lemma_null_move_restores(b0: &Board, b1: &Board, b2: &Board)
    requires
        b0.wf(),
        b1.is_after_null_move(b0),
        b2.is_after_null_undo(b1),
    ensures
        b2.same_position(b0),
{
    assert(b2.moves@ =~= b0.moves@);
    assert(b1.board_state.history@[b0.board_state.index as int] == b0.board_state.history@[b0.board_state.index as int]);
    assert(b1.zobrist.key.history@[b0.zobrist.key.index as int] == b0.zobrist.key.history@[b0.zobrist.key.index as int]);
}

impl Board {
    /// The current key occurred an even number of plies back, at least two,
    /// within the last `fifty_move_counter` plies (none when the counter
    /// exceeds the number of recorded plies).
    pub open spec fn repetition_spec(&self) -> bool {
        let n = self.zobrist.key.index as int;
        let lookback = n - self.board_state.current.fifty_move_counter;
        &&& n >= 2
        &&& lookback >= 0
        &&& exists|k: int| 0 <= k && lookback <= n - 2 - 2 * k && #[trigger] self.zobrist.key.history@[n - 2 - 2 * k]
            == self.zobrist.key.current
    }

    /// Whether the position repeats an earlier one (see `repetition_spec`).
    pub fn is_repetition(&self) -> (r: bool)
        requires
            self.wf(),
        ensures
            r == self.repetition_spec(),
    {
        if self.zobrist.key.index < 2 {
            return false;
        }
        let fifty = self.board_state.current.fifty_move_counter as usize;
        if fifty > self.zobrist.key.index {
            // The look-back point would lie before the first ply: nothing is looked at.
            return false;
        }
        let n = self.zobrist.key.index;
        let lookback = n - fifty;
        let mut i = n - 2;
        let ghost mut k: int = 0;
        while i >= lookback
            invariant
                self.wf(),
                n == self.zobrist.key.index,
                lookback == n - self.board_state.current.fifty_move_counter,
                i == n - 2 - 2 * k,
                k >= 0,
                forall|q: int| 0 <= q < k ==> #[trigger] self.zobrist.key.history@[n - 2 - 2 * q] != self.zobrist.key.current,
            decreases i,
        {
            if self.zobrist.key.history[i] == self.zobrist.key.current {
                return true;
            }
            if i < 2 {
                proof {
                    assert forall|q: int| 0 <= q && lookback <= n - 2 - 2 * q implies #[trigger] self.zobrist.key.history@[n - 2 - 2 * q]
                        != self.zobrist.key.current by {
                        if q > k {
                            assert(n - 2 - 2 * q < 0);
                        }
                    }
                }
                return false;
            }
            i = i - 2;
            proof {
                k = k + 1;
            }
        }
        proof {
            assert forall|q: int| 0 <= q && lookback <= n - 2 - 2 * q implies #[trigger] self.zobrist.key.history@[n - 2 - 2 * q]
                != self.zobrist.key.current by {
                if q >= k {
                    assert(n - 2 - 2 * q < lookback);
                }
            }
        }
        false
    }

    /// The fifty-move counter reached 100, the material cannot mate, or the
    /// position repeats.
    pub open spec fn draw_spec(&self) -> bool {
        ||| self.board_state.current.fifty_move_counter >= 100
        ||| (self.total_material_without_pawns@[0] + self.total_material_without_pawns@[1] < ROOK_WORTH
            && self.piece_bitboards@[WHITE_PAWN as int] == 0 && self.piece_bitboards@[BLACK_PAWN as int] == 0)
        ||| self.repetition_spec()
    }

    /// Whether the game is drawn (see `draw_spec`).
    pub fn is_draw(&self) -> (r: bool)
        requires
            self.wf(),
        ensures
            r == self.draw_spec(),
    {
        self.board_state.current.fifty_move_counter >= 100 || self.insufficient_checkmating_material() || self.is_repetition()
    }
}

impl Board {
    /// Some move of the side to move keeps its own king safe.
    pub open spec fn has_legal_move(&self) -> bool {
        exists|m: MoveData| #[trigger] color_move(self.view(), self.occupied_spec(), last_move_of(self.moves@),
            self.board_state.current.castling_rights, self.white_to_move, false, m) && !king_attacked(
            apply_move_view(self.view(), m), occupancy_for(apply_move_view(self.view(), m)), self.white_to_move)
    }

    /// The game result for training: `Some(0)` for a draw or stalemate,
    /// `Some(-1)` when white is mated, `Some(1)` when black is, `None` while a
    /// legal move remains.
    pub open spec fn winner_spec(&self) -> Option<i32> {
        if self.draw_spec() {
            Some(0)
        } else if self.has_legal_move() {
            None
        } else if king_attacked(self.view(), self.occupied_spec(), self.white_to_move) {
            Some(if self.white_to_move { -1i32 } else { 1i32 })
        } else {
            Some(0)
        }
    }

    /// The result of the game in this position (see `winner_spec`).
    pub fn get_winner(&mut self) -> (r: Option<i32>)
        requires
            old(self).wf(),
            old(self).moves@.len() + 1 < usize::MAX,
            old(self).board_state.current.fifty_move_counter < 255,
            color_movable(old(self).view(), old(self).occupied_spec(), old(self).board_state.current.castling_rights,
                old(self).white_to_move, false),
            forall|m: MoveData| #[trigger] color_move(old(self).view(), old(self).occupied_spec(), last_move_of(old(self).moves@),
                old(self).board_state.current.castling_rights, old(self).white_to_move, false, m) ==> move_fits(old(self).view(), m),
        ensures
            final(self).wf(),
            final(self).same_position(old(self)),
            r == old(self).winner_spec(),
    {
        let ghost v = self.view();
        let ghost occ = self.occupied_spec();
        let ghost last = last_move_of(self.moves@);
        let ghost rights = self.board_state.current.castling_rights;
        let ghost white = self.white_to_move;
        let draw = self.is_draw();
        proof {
            assert(draw == old(self).draw_spec());
        }
        if draw {
            proof {
                self.lemma_same_position_refl();
            }
            return Some(0);
        }
        let moves = self.get_pseudo_legal_moves_for_color(self.white_to_move, false);
        proof {
            self.lemma_wf_same_but_caches(old(self));
            self.lemma_same_position_of_caches(old(self));
        }
        let mut i: usize = 0;
        while i < moves.len()
            invariant
                i <= moves@.len(),
                self.wf(),
                self.same_position(old(self)),
                v == old(self).view(),
                occ == old(self).occupied_spec(),
                last == last_move_of(old(self).moves@),
                rights == old(self).board_state.current.castling_rights,
                white == old(self).white_to_move,
                !old(self).draw_spec(),
                old(self).moves@.len() + 1 < usize::MAX,
                old(self).board_state.current.fifty_move_counter < 255,
                forall|m: MoveData| #[trigger] moves@.contains(m) <==> color_move(v, occ, last, rights, white, false, m),
                forall|m: MoveData| #[trigger] color_move(v, occ, last, rights, white, false, m) ==> move_fits(v, m),
                forall|k: int| 0 <= k < i ==> king_attacked(apply_move_view(v, #[trigger] moves@[k]),
                    occupancy_for(apply_move_view(v, moves@[k])), white),
            decreases moves@.len() - i,
        {
            let m = moves[i];
            proof {
                assert(moves@.contains(m));
            }
            let ghost before = *self;
            if self.make_move(m) {
                let ghost after = *self;
                proof {
                    lemma_apply_undo_fits(v, m);
                }
                self.undo_last_move();
                proof {
                    lemma_make_undo_restores(&before, m, &after, self);
                    before.lemma_same_position_trans(old(self), self);
                    assert(old(self).has_legal_move());
                    assert(!old(self).draw_spec());
                    assert(old(self).winner_spec() == None::<i32>);
                }
                return None;
            }
            proof {
                self.lemma_same_position_trans2(&before, old(self));
            }
            i = i + 1;
        }
        proof {
            assert forall|m: MoveData| #[trigger] color_move(v, occ, last, rights, white, false, m) implies king_attacked(
                apply_move_view(v, m), occupancy_for(apply_move_view(v, m)), white) by {
                assert(moves@.contains(m));
                let k = choose|k: int| 0 <= k < moves@.len() && moves@[k] == m;
            }
        }
        let ghost mid = *self;
        if self.king_in_check(self.white_to_move) {
            proof {
                self.lemma_wf_same_but_caches(&mid);
                self.lemma_same_position_of_caches(&mid);
                self.lemma_same_position_trans2(&mid, old(self));
            }
            return Some(if self.white_to_move { -1 } else { 1 });
        }
        proof {
            self.lemma_wf_same_but_caches(&mid);
            self.lemma_same_position_of_caches(&mid);
            self.lemma_same_position_trans2(&mid, old(self));
        }
        Some(0)
    }
}


/// A position with a pawn of either side on the board is never drawn for
/// lack of material: it is drawn only by the fifty-move counter or by a
/// repetition.
pub proof fn lemma_pawn_keeps_game_alive(b: &Board, s: int)
    requires
        b.bitboards_wf(),
        0 <= s < 64,
        b.view()[s] == WHITE_PAWN || b.view()[s] == BLACK_PAWN,
    ensures
        b.draw_spec() ==> b.board_state.current.fifty_move_counter >= 100 || b.repetition_spec(),
        b.winner_spec() == Some(0i32) ==> b.board_state.current.fifty_move_counter >= 100 || b.repetition_spec() || !b.has_legal_move(),
{
    b.lemma_view_is_bits();
    let p: int = b.view()[s];
    crate::bits::lemma_bit_ops(b.piece_bitboards@[p], b.piece_bitboards@[p], s as u64);
    assert(b.piece_bitboards@[p] != 0);
}

} // verus!
