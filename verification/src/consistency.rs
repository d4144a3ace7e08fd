//! What a position reached by legal play keeps: the side that just moved is
//! not in check, castling rights go with king and rook on their home squares,
//! pawns stand off the row they would promote beyond, and a double pawn push
//! as the last move left its pawn where en passant expects it. Every
//! pseudo-legal move of such a position can be made, and making a legal move
//! keeps the position consistent.
use vstd::prelude::*;
use crate::pieces::{
    PAWN, KING, WHITE_PAWN, BLACK_PAWN, WHITE_ROOK, BLACK_ROOK, WHITE_KING, BLACK_KING, NO_PIECE,
    spec_is_piece_white, spec_piece_type, spec_build_piece, is_promotable,
};
use crate::move_data::{MoveData, DOUBLE_PAWN_PUSH_FLAG, EN_PASSANT_FLAG, SHORT_CASTLE_FLAG, LONG_CASTLE_FLAG};
use crate::castling_rights::{
    WHITE_CASTLE_LONG, WHITE_CASTLE_SHORT, BLACK_CASTLE_SHORT, BLACK_CASTLE_LONG, ALL_WHITE_CASTLING_RIGHTS,
    ALL_BLACK_CASTLING_RIGHTS,
};
use crate::bitboards::{knight_step, king_step, pawn_capture_step};
use crate::precalculated_move_data::{slider_attacks, slides_to, ray_square, edge_distance, lemma_ray_square};
use crate::zobrist::hashable_move;
use crate::board::{
    Board, color_of, piece_attacks, king_attacked, move_fits, occupancy_for, capture_square, rook_from, rook_to,
    own_rook, last_move_of, updated_castling_rights, apply_move_view, placed_piece,
};
use crate::movegen::{
    color_move, piece_move, step_move, pawn_move, pawn_push_move, pawn_capture_move, pawn_en_passant_move,
    short_castle_allowed, long_castle_allowed, pawn_flag_ok, pawn_promotes, pawn_forward, move_of, color_movable,
    piece_movable,
};

verus! {

/// Each castling right goes with its king and rook on their home squares, and
/// while a side holds a right its king stands on its home square only.
pub open spec fn castling_consistent(v: Seq<int>, rights: u8) -> bool {
    &&& rights & WHITE_CASTLE_SHORT != 0 ==> v[63] == WHITE_ROOK
    &&& rights & WHITE_CASTLE_LONG != 0 ==> v[56] == WHITE_ROOK
    &&& rights & BLACK_CASTLE_SHORT != 0 ==> v[7] == BLACK_ROOK
    &&& rights & BLACK_CASTLE_LONG != 0 ==> v[0] == BLACK_ROOK
    &&& (rights & WHITE_CASTLE_SHORT != 0 || rights & WHITE_CASTLE_LONG != 0) ==> forall|s: int|
        0 <= s < 64 ==> (#[trigger] v[s] == WHITE_KING <==> s == 60)
    &&& (rights & BLACK_CASTLE_SHORT != 0 || rights & BLACK_CASTLE_LONG != 0) ==> forall|s: int|
        0 <= s < 64 ==> (#[trigger] v[s] == BLACK_KING <==> s == 4)
}

/// No white pawn stands on the top row and no black pawn on the bottom row.
pub open spec fn pawns_placed(v: Seq<int>) -> bool {
    forall|s: int| 0 <= s < 64 ==> (#[trigger] v[s] == WHITE_PAWN ==> s >= 8) && (v[s] == BLACK_PAWN ==> s < 56)
}

/// A double pawn push as the last move was made by the side not to move: its
/// pawn stands where it landed, two rows from its start, over an empty square.
pub open spec fn en_passant_consistent(v: Seq<int>, last: MoveData, white_to_move: bool) -> bool {
    last.flag == DOUBLE_PAWN_PUSH_FLAG ==> if white_to_move {
        &&& 24 <= last.to < 32
        &&& v[last.to as int] == BLACK_PAWN
        &&& v[last.to - 8] == 12
    } else {
        &&& 32 <= last.to < 40
        &&& v[last.to as int] == WHITE_PAWN
        &&& v[last.to + 8] == 12
    }
}

impl Board {
    /// The position could have been reached by legal play (see the module).
    pub open spec fn consistent(&self) -> bool {
        let v = self.view();
        &&& self.wf()
        &&& !king_attacked(v, occupancy_for(v), !self.white_to_move)
        &&& castling_consistent(v, self.board_state.current.castling_rights)
        &&& pawns_placed(v)
        &&& en_passant_consistent(v, last_move_of(self.moves@), self.white_to_move)
    }
}

/// No piece attacks the square it stands on.
proof fn lemma_no_self_attack(p: int, s: int, occ: u64)
    requires
        0 <= s < 64,
    ensures
        !piece_attacks(p, s, occ, s),
{
    assert forall|d: int| 0 <= d < 8 implies !#[trigger] slides_to(s, d, occ, s) by {
        if slides_to(s, d, occ, s) {
            let n = choose|n: int| 1 <= n <= edge_distance(s, d) && s == #[trigger] ray_square(s, d, n)
                && crate::precalculated_move_data::path_clear(s, d, occ, n);
            lemma_ray_square(s, d, n);
        }
    }
}

/// Every pseudo-legal move of the side to move in a consistent position can be made.
pub proof fn lemma_consistent_moves_fit(b: &Board, only_captures: bool, m: MoveData)
    requires
        b.consistent(),
        color_move(b.view(), b.occupied_spec(), last_move_of(b.moves@), b.board_state.current.castling_rights,
            b.white_to_move, only_captures, m),
    ensures
        move_fits(b.view(), m),
{
    let v = b.view();
    let s = m.from as int;
    let p = v[s];
    let white = b.white_to_move;
    let rights = b.board_state.current.castling_rights;
    b.lemma_view_is_bits();
    lemma_no_self_attack(p, s, b.occupied_spec());
    if spec_piece_type(p) == PAWN {
        assert(p == if white { WHITE_PAWN as int } else { BLACK_PAWN as int });
        if pawn_en_passant_move(v, last_move_of(b.moves@), s, m) {
            assert(m.capture as int == if white { BLACK_PAWN as int } else { WHITE_PAWN as int });
        }
    } else if spec_piece_type(p) == KING && is_castle_move(m) {
        assert(p == if white { WHITE_KING as int } else { BLACK_KING as int });
        assert(s == if white { 60int } else { 4int });
    }
}

/// The flag of `m` names a castling move.
pub open spec fn is_castle_move(m: MoveData) -> bool {
    m.flag == SHORT_CASTLE_FLAG || m.flag == LONG_CASTLE_FLAG
}

/// Clearing the bits of `mask` from `x` keeps a single bit `bit` only when
/// `x` had it and `mask` does not.
proof fn lemma_and_not_bit(x: u8, mask: u8, bit: u8)
    requires
        bit == 1 || bit == 2 || bit == 4 || bit == 8,
    ensures
        ((x & !mask) & bit != 0) <==> (x & bit != 0 && mask & bit == 0),
{
    assert(((x & !mask) & bit != 0) <==> (x & bit != 0 && mask & bit == 0)) by (bit_vector)
        requires
            bit == 1 || bit == 2 || bit == 4 || bit == 8,
    ;
}

/// The castling rights after a move: a right survives exactly when it was
/// held before and neither the side's king moved nor the right's corner (h1,
/// a1, h8, a8 for white short, white long, black short, black long) was the
/// move's origin or destination; no other bit is set.
pub proof fn lemma_updated_rights_bits(cr: u8, m: MoveData)
    ensures
        updated_castling_rights(cr, m) & WHITE_CASTLE_SHORT != 0 <==> cr & WHITE_CASTLE_SHORT != 0 && m.piece != WHITE_KING
            && m.from != 63 && m.to != 63,
        updated_castling_rights(cr, m) & WHITE_CASTLE_LONG != 0 <==> cr & WHITE_CASTLE_LONG != 0 && m.piece != WHITE_KING
            && m.from != 56 && m.to != 56,
        updated_castling_rights(cr, m) & BLACK_CASTLE_SHORT != 0 <==> cr & BLACK_CASTLE_SHORT != 0 && m.piece != BLACK_KING
            && m.from != 7 && m.to != 7,
        updated_castling_rights(cr, m) & BLACK_CASTLE_LONG != 0 <==> cr & BLACK_CASTLE_LONG != 0 && m.piece != BLACK_KING
            && m.from != 0 && m.to != 0,
        cr < 16 ==> updated_castling_rights(cr, m) < 16,
{
    let a = if m.piece == WHITE_KING { cr & !ALL_WHITE_CASTLING_RIGHTS } else if m.piece == BLACK_KING {
        cr & !ALL_BLACK_CASTLING_RIGHTS
    } else {
        cr
    };
    let b = if m.from == 0 { a & !BLACK_CASTLE_LONG } else if m.from == 7 { a & !BLACK_CASTLE_SHORT } else if m.from == 56 {
        a & !WHITE_CASTLE_LONG
    } else if m.from == 63 {
        a & !WHITE_CASTLE_SHORT
    } else {
        a
    };
    let c = updated_castling_rights(cr, m);
    let bits: Seq<u8> = seq![1u8, 2u8, 4u8, 8u8];
    assert forall|k: int| 0 <= k < 4 implies {
        &&& ((cr & !ALL_WHITE_CASTLING_RIGHTS) & #[trigger] bits[k] != 0) <==> (cr & bits[k] != 0 && ALL_WHITE_CASTLING_RIGHTS & bits[k] == 0)
        &&& ((cr & !ALL_BLACK_CASTLING_RIGHTS) & bits[k] != 0) <==> (cr & bits[k] != 0 && ALL_BLACK_CASTLING_RIGHTS & bits[k] == 0)
        &&& ((a & !BLACK_CASTLE_LONG) & bits[k] != 0) <==> (a & bits[k] != 0 && BLACK_CASTLE_LONG & bits[k] == 0)
        &&& ((a & !BLACK_CASTLE_SHORT) & bits[k] != 0) <==> (a & bits[k] != 0 && BLACK_CASTLE_SHORT & bits[k] == 0)
        &&& ((a & !WHITE_CASTLE_LONG) & bits[k] != 0) <==> (a & bits[k] != 0 && WHITE_CASTLE_LONG & bits[k] == 0)
        &&& ((a & !WHITE_CASTLE_SHORT) & bits[k] != 0) <==> (a & bits[k] != 0 && WHITE_CASTLE_SHORT & bits[k] == 0)
        &&& ((b & !BLACK_CASTLE_LONG) & bits[k] != 0) <==> (b & bits[k] != 0 && BLACK_CASTLE_LONG & bits[k] == 0)
        &&& ((b & !BLACK_CASTLE_SHORT) & bits[k] != 0) <==> (b & bits[k] != 0 && BLACK_CASTLE_SHORT & bits[k] == 0)
        &&& ((b & !WHITE_CASTLE_LONG) & bits[k] != 0) <==> (b & bits[k] != 0 && WHITE_CASTLE_LONG & bits[k] == 0)
        &&& ((b & !WHITE_CASTLE_SHORT) & bits[k] != 0) <==> (b & bits[k] != 0 && WHITE_CASTLE_SHORT & bits[k] == 0)
    } by {
        lemma_and_not_bit(cr, ALL_WHITE_CASTLING_RIGHTS, bits[k]);
        lemma_and_not_bit(cr, ALL_BLACK_CASTLING_RIGHTS, bits[k]);
        lemma_and_not_bit(a, BLACK_CASTLE_LONG, bits[k]);
        lemma_and_not_bit(a, BLACK_CASTLE_SHORT, bits[k]);
        lemma_and_not_bit(a, WHITE_CASTLE_LONG, bits[k]);
        lemma_and_not_bit(a, WHITE_CASTLE_SHORT, bits[k]);
        lemma_and_not_bit(b, BLACK_CASTLE_LONG, bits[k]);
        lemma_and_not_bit(b, BLACK_CASTLE_SHORT, bits[k]);
        lemma_and_not_bit(b, WHITE_CASTLE_LONG, bits[k]);
        lemma_and_not_bit(b, WHITE_CASTLE_SHORT, bits[k]);
    }
    assert(bits[0] == 1u8 && bits[1] == 2u8 && bits[2] == 4u8 && bits[3] == 8u8);
    assert(ALL_WHITE_CASTLING_RIGHTS & 4u8 != 0 && ALL_WHITE_CASTLING_RIGHTS & 8u8 != 0 && ALL_WHITE_CASTLING_RIGHTS & 1u8 == 0
        && ALL_WHITE_CASTLING_RIGHTS & 2u8 == 0 && ALL_BLACK_CASTLING_RIGHTS & 1u8 != 0 && ALL_BLACK_CASTLING_RIGHTS & 2u8 != 0
        && ALL_BLACK_CASTLING_RIGHTS & 4u8 == 0 && ALL_BLACK_CASTLING_RIGHTS & 8u8 == 0 && 1u8 & 2u8 == 0 && 1u8 & 4u8 == 0
        && 1u8 & 8u8 == 0 && 2u8 & 4u8 == 0 && 2u8 & 8u8 == 0 && 4u8 & 8u8 == 0 && 2u8 & 1u8 == 0 && 4u8 & 1u8 == 0
        && 8u8 & 1u8 == 0 && 4u8 & 2u8 == 0 && 8u8 & 2u8 == 0 && 8u8 & 4u8 == 0 && 1u8 & 1u8 != 0 && 2u8 & 2u8 != 0
        && 4u8 & 4u8 != 0 && 8u8 & 8u8 != 0) by (bit_vector);
    if cr < 16 {
        crate::board::lemma_rights_bound(cr, m);
    }
}

/// The squares a move changes: its origin, its destination, the square of
/// the piece it captures, and a castling rook's two squares.
pub open spec fn touched(m: MoveData, s: int) -> bool {
    ||| s == m.from as int
    ||| s == m.to as int
    ||| (m.capture != NO_PIECE && s == capture_square(m))
    ||| (is_castle_move(m) && (m.piece == WHITE_KING || m.piece == BLACK_KING) && (s == rook_from(m) || s == rook_to(m)))
}

/// A move leaves every square it does not touch as it was.
proof fn lemma_untouched(v: Seq<int>, m: MoveData, s: int)
    requires
        move_fits(v, m),
        0 <= s < 64,
        !touched(m, s),
    ensures
        apply_move_view(v, m)[s] == v[s],
{
}

/// Making a legal move (one that leaves the mover's king safe) from a
/// consistent position gives a consistent position.
pub proof fn lemma_move_keeps_consistency(b0: &Board, only_captures: bool, m: MoveData, b1: &Board)
    requires
        b0.consistent(),
        color_move(b0.view(), b0.occupied_spec(), last_move_of(b0.moves@), b0.board_state.current.castling_rights,
            b0.white_to_move, only_captures, m),
        b1.wf(),
        b1.is_after_move(b0, m),
        !king_attacked(apply_move_view(b0.view(), m), occupancy_for(apply_move_view(b0.view(), m)), b0.white_to_move),
    ensures
        b1.consistent(),
{
    let v0 = b0.view();
    let v1 = b1.view();
    let white = b0.white_to_move;
    let s0 = m.from as int;
    let p = v0[s0];
    let cr0 = b0.board_state.current.castling_rights;
    let cr1 = b1.board_state.current.castling_rights;
    b0.lemma_view_is_bits();
    lemma_consistent_moves_fit(b0, only_captures, m);
    lemma_updated_rights_bits(cr0, m);
    assert(last_move_of(b1.moves@) == m);
    assert(p == m.piece as int);
    assert(color_of(p) == if white { 1int } else { 0int });
    // The captured piece is never the king of the side not to move: it is not attacked.
    b0.lemma_occupancy();
    if m.capture != NO_PIECE && m.flag != EN_PASSANT_FLAG {
        let to = m.to as int;
        assert(piece_attacks(p, s0, b0.occupied_spec(), to)) by {
            if spec_piece_type(p) == PAWN {
                assert(pawn_capture_move(v0, s0, m) || pawn_en_passant_move(v0, last_move_of(b0.moves@), s0, m)
                    || pawn_push_move(v0, s0, only_captures, m));
            }
        }
        assert(crate::board::attacked_by(v0, b0.occupied_spec(), color_of(p), to));
        crate::board::lemma_attacked_congruent(v0, b0.occupied_spec(), occupancy_for(v0), color_of(p), to);
        assert(crate::board::attacked_by(v0, occupancy_for(v0), color_of(p), to));
        assert(crate::board::opponent(!white) == color_of(p));
        if v0[to] == spec_build_piece(!white, KING as int) {
            assert(king_attacked(v0, occupancy_for(v0), !white));
        }
        assert(v0[to] != spec_build_piece(!white, KING as int));
    }
    // Pawns stay off the rows they would move beyond.
    assert forall|t: int| 0 <= t < 64 implies (#[trigger] v1[t] == WHITE_PAWN ==> t >= 8) && (v1[t] == BLACK_PAWN ==> t < 56) by {
        if !touched(m, t) {
            lemma_untouched(v0, m, t);
        } else if t == m.to as int && (v1[t] == WHITE_PAWN || v1[t] == BLACK_PAWN) {
            assert(!is_promotable(m.flag as int));
            assert(spec_piece_type(p) == PAWN);
        }
    }
    // The last move, if a double push, left its pawn where en passant expects it.
    if m.flag == DOUBLE_PAWN_PUSH_FLAG {
        assert(spec_piece_type(p) == PAWN);
        let jumped = s0 + pawn_forward(v0, s0);
        assert(!touched(m, jumped));
        lemma_untouched(v0, m, jumped);
    }
    // Castling rights still go with their king and rook.
    assert(castling_consistent(v1, cr1)) by {
        if cr1 & WHITE_CASTLE_SHORT != 0 || cr1 & WHITE_CASTLE_LONG != 0 {
            assert forall|t: int| 0 <= t < 64 implies (#[trigger] v1[t] == WHITE_KING <==> t == 60) by {
                if !touched(m, t) {
                    lemma_untouched(v0, m, t);
                }
            }
        }
        if cr1 & BLACK_CASTLE_SHORT != 0 || cr1 & BLACK_CASTLE_LONG != 0 {
            assert forall|t: int| 0 <= t < 64 implies (#[trigger] v1[t] == BLACK_KING <==> t == 4) by {
                if !touched(m, t) {
                    lemma_untouched(v0, m, t);
                }
            }
        }
        if cr1 & WHITE_CASTLE_SHORT != 0 {
            assert(!touched(m, 63));
            lemma_untouched(v0, m, 63);
        }
        if cr1 & WHITE_CASTLE_LONG != 0 {
            assert(!touched(m, 56));
            lemma_untouched(v0, m, 56);
        }
        if cr1 & BLACK_CASTLE_SHORT != 0 {
            assert(!touched(m, 7));
            lemma_untouched(v0, m, 7);
        }
        if cr1 & BLACK_CASTLE_LONG != 0 {
            assert(!touched(m, 0));
            lemma_untouched(v0, m, 0);
        }
    }
}

/// In a consistent position the moves of the side to move can be generated:
/// its pawns are off their last row and a king that may castle stands at home.
pub proof fn lemma_consistent_movable(b: &Board, only_captures: bool)
    requires
        b.consistent(),
    ensures
        color_movable(b.view(), b.occupied_spec(), b.board_state.current.castling_rights, b.white_to_move, only_captures),
{
    let v = b.view();
    b.lemma_view_is_bits();
    assert forall|s: int| 0 <= s < 64 && v[s] != 12 && spec_is_piece_white(v[s]) == b.white_to_move implies #[trigger] piece_movable(
        v, b.occupied_spec(), b.board_state.current.castling_rights, s, only_captures) by {
        if spec_piece_type(v[s]) == KING && long_castle_allowed(v, b.occupied_spec(), b.board_state.current.castling_rights, spec_is_piece_white(v[s])) {
            assert(v[s] == if spec_is_piece_white(v[s]) { WHITE_KING as int } else { BLACK_KING as int });
        }
    }
}

/// A board in the same position as a consistent one is consistent.
pub proof fn lemma_same_position_consistent(b0: &Board, b1: &Board)
    requires
        b0.consistent(),
        b1.wf(),
        b1.same_position(b0),
    ensures
        b1.consistent(),
{
}

/// Passing when the side to move is not in check keeps the position consistent.
pub proof fn lemma_null_move_keeps_consistency(b0: &Board, b1: &Board)
    requires
        b0.consistent(),
        !king_attacked(b0.view(), occupancy_for(b0.view()), b0.white_to_move),
        b1.wf(),
        b1.is_after_null_move(b0),
    ensures
        b1.consistent(),
{
    assert(last_move_of(b1.moves@) == crate::move_data::spec_null_move());
}

impl Board {
    /// Whether the position is consistent (see `consistent`), so that callers
    /// can test it before the functions that ask for it.
    pub fn is_consistent(&mut self) -> (r: bool)
        requires
            old(self).wf(),
        ensures
            final(self).wf(),
            final(self).same_but_caches(old(self)),
            r == old(self).consistent(),
    {
        let ghost b0 = *self;
        let ghost v = self.view();
        proof {
            self.lemma_view_is_bits();
            self.lemma_occupancy();
            crate::board::lemma_king_attacked_congruent(v, self.occupied_spec(), occupancy_for(v), !self.white_to_move);
        }
        let other_in_check = self.king_in_check(!self.white_to_move);
        proof {
            self.lemma_wf_same_but_caches(&b0);
        }
        if other_in_check {
            return false;
        }
        let rights = self.board_state.current.castling_rights;
        if rights & WHITE_CASTLE_SHORT != 0 && self.get_piece(63) != WHITE_ROOK {
            return false;
        }
        if rights & WHITE_CASTLE_LONG != 0 && self.get_piece(56) != WHITE_ROOK {
            return false;
        }
        if rights & BLACK_CASTLE_SHORT != 0 && self.get_piece(7) != BLACK_ROOK {
            return false;
        }
        if rights & BLACK_CASTLE_LONG != 0 && self.get_piece(0) != BLACK_ROOK {
            return false;
        }
        let white_rights = rights & WHITE_CASTLE_SHORT != 0 || rights & WHITE_CASTLE_LONG != 0;
        let black_rights = rights & BLACK_CASTLE_SHORT != 0 || rights & BLACK_CASTLE_LONG != 0;
        let mut s: u8 = 0;
        while s < 64
            invariant
                s <= 64,
                self.wf(),
                self.same_but_caches(old(self)),
                v == self.view(),
                v == old(self).view(),
                rights == old(self).board_state.current.castling_rights,
                white_rights == (rights & WHITE_CASTLE_SHORT != 0 || rights & WHITE_CASTLE_LONG != 0),
                black_rights == (rights & BLACK_CASTLE_SHORT != 0 || rights & BLACK_CASTLE_LONG != 0),
                forall|t: int| 0 <= t < s ==> (#[trigger] v[t] == WHITE_PAWN ==> t >= 8) && (v[t] == BLACK_PAWN ==> t < 56),
                white_rights ==> forall|t: int| 0 <= t < s ==> (#[trigger] v[t] == WHITE_KING <==> t == 60),
                black_rights ==> forall|t: int| 0 <= t < s ==> (#[trigger] v[t] == BLACK_KING <==> t == 4),
            decreases 64 - s,
        {
            let piece = self.get_piece(s);
            proof {
                assert(v[s as int] == piece);
            }
            if piece == WHITE_PAWN && s < 8 {
                proof {
                    assert(!pawns_placed(v));
                }
                return false;
            }
            if piece == BLACK_PAWN && s >= 56 {
                proof {
                    assert(!pawns_placed(v));
                }
                return false;
            }
            if white_rights && ((piece == WHITE_KING) != (s == 60)) {
                proof {
                    assert(!castling_consistent(v, rights));
                }
                return false;
            }
            if black_rights && ((piece == BLACK_KING) != (s == 4)) {
                proof {
                    assert(!castling_consistent(v, rights));
                }
                return false;
            }
            s = s + 1;
        }
        let last = self.get_last_move();
        if last.flag == DOUBLE_PAWN_PUSH_FLAG {
            if self.white_to_move {
                if !(24 <= last.to && last.to < 32) || self.get_piece(last.to) != BLACK_PAWN || !self.square_is_empty(last.to - 8) {
                    return false;
                }
            } else {
                if !(32 <= last.to && last.to < 40) || self.get_piece(last.to) != WHITE_PAWN || !self.square_is_empty(last.to + 8) {
                    return false;
                }
            }
        }
        true
    }
}

} // verus!
