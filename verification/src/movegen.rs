//! Pseudo-legal move generation: the moves of one piece, and of every piece of
//! a colour, as the bitboards, the last move and the castling rights allow.
use vstd::prelude::*;
use crate::utils::{bit_set, pop_lsb};
use crate::pieces::{
    NO_PIECE, PAWN, KNIGHT, ROOK, QUEEN, KING, WHITE_PAWN, BLACK_PAWN, WHITE_KING, BLACK_KING,
    build_piece, is_piece_white, get_piece_type, spec_is_piece_white,
    spec_piece_type, spec_build_piece, is_promotable, promotable_contains,
};
use crate::move_data::{
    MoveData, spec_null_move, DOUBLE_PAWN_PUSH_FLAG, EN_PASSANT_FLAG, SHORT_CASTLE_FLAG,
    LONG_CASTLE_FLAG,
};
use crate::castling_rights::{
    WHITE_CASTLE_LONG, WHITE_CASTLE_SHORT, BLACK_CASTLE_SHORT, BLACK_CASTLE_LONG,
    SHORT_CASTLING_RIGHTS, LONG_CASTLING_RIGHTS, SHORT_CASTLE_MASK, LONG_CASTLE_MASK,
    EXTRA_LONG_CASTLE_SQUARE_CHECK,
};
use crate::precalculated_move_data::lemma_zero_bits;
use crate::bits::{
    lemma_bit_ops, lemma_single_bit, set_bits, lemma_set_bits_pop, lemma_set_bits_zero, squares_where, lemma_set_bits_where,
};
use crate::bitboards::pawn_capture_step;
use crate::board::{
    Board, color_of, piece_attacks, attacked_by, opponent, king_attacked, move_fits, apply_move_view,
    occupancy_for, last_move_of, lemma_and_nonzero, undo_fits,
};

verus! {

/// The move with the given fields.
pub open spec fn move_of(flag: int, capture: int, piece: int, from: int, to: int) -> MoveData {
    MoveData { flag: flag as u8, capture: capture as u8, piece: piece as u8, from: from as u8, to: to as u8 }
}

/// A move of the non-pawn piece on `s` to a square it attacks that holds no
/// piece of its own colour; with `only_captures`, only onto the piece whose
/// bitboard index is the mover's colour flipped (0 for white movers, 1 for black).
pub open spec fn step_move(v: Seq<int>, occ: u64, s: int, only_captures: bool, m: MoveData) -> bool {
    let p = v[s];
    let to = m.to as int;
    &&& m.flag == 0
    &&& m.piece as int == p
    &&& m.from as int == s
    &&& to < 64
    &&& piece_attacks(p, s, occ, to)
    &&& !(v[to] != 12 && color_of(v[to]) == color_of(p))
    &&& only_captures ==> v[to] == if spec_is_piece_white(p) { 0int } else { 1 }
    &&& m.capture as int == v[to]
}

/// Castling short is allowed for `white`: the king is not attacked, the right
/// is held, and the two squares beside the king are empty and not attacked.
pub open spec fn short_castle_allowed(v: Seq<int>, occ: u64, rights: u8, white: bool) -> bool {
    let a: int = if white { 61 } else { 5 };
    let b: int = if white { 62 } else { 6 };
    let right = if white { WHITE_CASTLE_SHORT } else { BLACK_CASTLE_SHORT };
    &&& !king_attacked(v, occ, white)
    &&& rights & right != 0
    &&& v[a] == 12 && v[b] == 12
    &&& !attacked_by(v, occ, opponent(white), a)
    &&& !attacked_by(v, occ, opponent(white), b)
}

/// Castling long is allowed for `white`: the king is not attacked, the right is
/// held, the three squares toward the rook are empty and the two the king
/// crosses are not attacked.
pub open spec fn long_castle_allowed(v: Seq<int>, occ: u64, rights: u8, white: bool) -> bool {
    let x: int = if white { 57 } else { 1 };
    let a: int = if white { 58 } else { 2 };
    let b: int = if white { 59 } else { 3 };
    let right = if white { WHITE_CASTLE_LONG } else { BLACK_CASTLE_LONG };
    &&& !king_attacked(v, occ, white)
    &&& rights & right != 0
    &&& v[x] == 12 && v[a] == 12 && v[b] == 12
    &&& !attacked_by(v, occ, opponent(white), a)
    &&& !attacked_by(v, occ, opponent(white), b)
}

/// The plain moves of `piece` from `from` to the squares `squares`, capturing
/// what stands there, in the order of the squares.
pub open spec fn target_moves(v: Seq<int>, piece: int, from: int, squares: Seq<int>) -> Seq<MoveData> {
    squares.map_values(|j: int| move_of(0, v[j], piece, from, j))
}

impl Board {
    /// Pushes, for each square of `targets`, the plain move of `piece` from
    /// `from` to it, capturing whatever stands there.
    fn push_target_moves(&self, result: &mut Vec<MoveData>, piece: usize, from: u8, targets: u64)
        requires
            self.bitboards_wf(),
            piece <= 12,
            from < 64,
            old(result)@.no_duplicates(),
            forall|k: int| 0 <= k < old(result)@.len() ==> !((#[trigger] old(result)@[k]).flag == 0 && old(result)@[k].to < 64
                && bit_set(targets, old(result)@[k].to as u64)),
        ensures
            final(result)@.no_duplicates(),
            forall|m: MoveData| #[trigger] final(result)@.contains(m) <==> (old(result)@.contains(m) || (m.flag == 0
                && m.piece as int == piece && m.from == from && m.to < 64 && bit_set(targets, m.to as u64)
                && m.capture as int == self.view()[m.to as int])),
            final(result)@ == old(result)@ + target_moves(self.view(), piece as int, from as int, set_bits(targets)),
    {
        let ghost start = result@;
        let mut bitboard = targets;
        let ghost mut done: Seq<int> = Seq::empty();
        proof {
            self.lemma_view_is_bits();
        }
        while bitboard != 0
            invariant
                self.bitboards_wf(),
                piece <= 12,
                from < 64,
                result@.no_duplicates(),
                forall|j: u64| j < 64 && #[trigger] bit_set(bitboard, j) ==> bit_set(targets, j),
                forall|k: int| 0 <= k < result@.len() ==> !((#[trigger] result@[k]).flag == 0 && result@[k].to < 64
                    && bit_set(bitboard, result@[k].to as u64)),
                forall|m: MoveData| #[trigger] result@.contains(m) <==> (start.contains(m) || (m.flag == 0
                    && m.piece as int == piece && m.from == from && m.to < 64 && bit_set(targets, m.to as u64)
                    && !bit_set(bitboard, m.to as u64) && m.capture as int == self.view()[m.to as int])),
                done + set_bits(bitboard) == set_bits(targets),
                result@ == start + target_moves(self.view(), piece as int, from as int, done),
            decreases bitboard,
        {
            let ghost before = bitboard;
            let to = pop_lsb(&mut bitboard);
            let capture = self.get_piece(to);
            let m = MoveData { flag: 0, capture: capture as u8, piece: piece as u8, from, to };
            proof {
                lemma_set_bits_pop(before, to as u64);
                assert(done.push(to as int) + set_bits(bitboard) =~= done + set_bits(before));
                assert(target_moves(self.view(), piece as int, from as int, done.push(to as int)) =~= target_moves(
                    self.view(),
                    piece as int,
                    from as int,
                    done,
                ).push(m));
                done = done.push(to as int);
            }
            proof {
                assert(!result@.contains(m)) by {
                    if result@.contains(m) {
                        let k = choose|k: int| 0 <= k < result@.len() && result@[k] == m;
                        assert(!(result@[k].flag == 0 && result@[k].to < 64 && bit_set(before, result@[k].to as u64)));
                        assert(bit_set(before, to as u64));
                    }
                }
            }
            let ghost prev = result@;
            result.push(m);
            proof {
                assert(result@.drop_last() =~= prev);
                assert forall|mm: MoveData| #[trigger] result@.contains(mm) <==> (start.contains(mm) || (mm.flag == 0
                    && mm.piece as int == piece && mm.from == from && mm.to < 64 && bit_set(targets, mm.to as u64)
                    && !bit_set(bitboard, mm.to as u64) && mm.capture as int == self.view()[mm.to as int])) by {
                    if result@.contains(mm) && mm != m {
                        let k = choose|k: int| 0 <= k < result@.len() && result@[k] == mm;
                        assert(result@.drop_last()[k] == mm);
                        assert(result@.drop_last().contains(mm));
                    }
                    if mm == m {
                        assert(result@[result@.len() - 1] == m);
                    }
                    if !(mm == m) && (start.contains(mm) || (mm.flag == 0
                        && mm.piece as int == piece && mm.from == from && mm.to < 64 && bit_set(targets, mm.to as u64)
                        && !bit_set(bitboard, mm.to as u64) && mm.capture as int == self.view()[mm.to as int])) {
                        assert(result@.drop_last().contains(mm));
                        let k = choose|k: int| 0 <= k < result@.drop_last().len() && result@.drop_last()[k] == mm;
                        assert(result@[k] == mm);
                    }
                }
            }
        }
        proof {
            lemma_zero_bits();
            lemma_set_bits_zero();
            assert(done =~= done + Seq::<int>::empty());
        }
    }
}

/// A two-square mask is clear of `x` exactly when neither square is set.
proof fn lemma_two_square_mask(x: u64, a: u64, b: u64)
    requires
        a < 64,
        b < 64,
    ensures
        (x & ((1u64 << a) | (1u64 << b)) == 0) <==> (!bit_set(x, a) && !bit_set(x, b)),
{
    assert((x & ((1u64 << a) | (1u64 << b)) == 0) <==> (!bit_set(x, a) && !bit_set(x, b))) by (bit_vector)
        requires
            a < 64,
            b < 64,
    ;
}

impl Board {
    /// Whether the king of `white` may castle short now (see `short_castle_allowed`).
    pub fn can_short_castle(&mut self, white: bool) -> (r: bool)
        requires
            old(self).wf(),
        ensures
            final(self).wf(),
            final(self).same_but_caches(old(self)),
            r == short_castle_allowed(old(self).view(), old(self).occupied_spec(), old(self).board_state.current.castling_rights, white),
    {
        let ghost v = self.view();
        let ghost occ = self.occupied_spec();
        let in_check = self.king_in_check(white);
        proof {
            self.lemma_wf_same_but_caches(old(self));
        }
        if in_check {
            return false;
        }
        let color = white as usize;
        if self.board_state.current.castling_rights & SHORT_CASTLING_RIGHTS[color] == 0 {
            proof {
                assert(SHORT_CASTLING_RIGHTS@[color as int] == if white { WHITE_CASTLE_SHORT } else { BLACK_CASTLE_SHORT });
            }
            return false;
        }
        let attacked = self.board_state.current.attacked_squares[(!white) as usize].unwrap();
        let mask = SHORT_CASTLE_MASK[color];
        let occupied = self.occupied_bitboard();
        proof {
            assert(SHORT_CASTLING_RIGHTS@[color as int] == if white { WHITE_CASTLE_SHORT } else { BLACK_CASTLE_SHORT });
            let a: u64 = if white { 61 } else { 5 };
            let b: u64 = if white { 62 } else { 6 };
            assert(mask == (1u64 << a) | (1u64 << b));
            lemma_two_square_mask(occupied | attacked, a, b);
            lemma_bit_ops(occupied, attacked, a);
            lemma_bit_ops(occupied, attacked, b);
            self.lemma_occupancy();
            assert(((!white) as usize) as int == opponent(white));
            assert(self.board_state.current.attacked_squares@[opponent(white)] == Some(attacked));
            assert(self.view() == v);
            assert(self.occupied_spec() == occ);
            assert(bit_set(attacked, (a as int) as u64) <==> attacked_by(v, occ, opponent(white), a as int));
            assert(bit_set(attacked, (b as int) as u64) <==> attacked_by(v, occ, opponent(white), b as int));
            assert(bit_set(attacked, b) <==> attacked_by(v, occ, opponent(white), b as int));
        }
        (occupied | attacked) & mask == 0
    }

    /// Whether the king of `white` may castle long now (see `long_castle_allowed`).
    pub fn can_long_castle(&mut self, white: bool) -> (r: bool)
        requires
            old(self).wf(),
        ensures
            final(self).wf(),
            final(self).same_but_caches(old(self)),
            r == long_castle_allowed(old(self).view(), old(self).occupied_spec(), old(self).board_state.current.castling_rights, white),
    {
        let ghost v = self.view();
        let ghost occ = self.occupied_spec();
        let occupied = self.occupied_bitboard();
        let in_check = self.king_in_check(white);
        proof {
            self.lemma_wf_same_but_caches(old(self));
        }
        if in_check {
            return false;
        }
        let color = white as usize;
        if self.board_state.current.castling_rights & LONG_CASTLING_RIGHTS[color] == 0 {
            proof {
                assert(LONG_CASTLING_RIGHTS@[color as int] == if white { WHITE_CASTLE_LONG } else { BLACK_CASTLE_LONG });
            }
            return false;
        }
        let extra = EXTRA_LONG_CASTLE_SQUARE_CHECK[color];
        proof {
            self.lemma_occupancy();
            let x: u64 = if white { 57 } else { 1 };
            assert(extra == 1u64 << x);
            lemma_single_bit(occupied, x, x);
        }
        if extra & occupied != 0 {
            return false;
        }
        let attacked = self.board_state.current.attacked_squares[(!white) as usize].unwrap();
        let mask = LONG_CASTLE_MASK[color];
        proof {
            assert(LONG_CASTLING_RIGHTS@[color as int] == if white { WHITE_CASTLE_LONG } else { BLACK_CASTLE_LONG });
            let a: u64 = if white { 58 } else { 2 };
            let b: u64 = if white { 59 } else { 3 };
            assert(mask == (1u64 << a) | (1u64 << b));
            lemma_two_square_mask(occupied | attacked, a, b);
            lemma_bit_ops(occupied, attacked, a);
            lemma_bit_ops(occupied, attacked, b);
            assert(((!white) as usize) as int == opponent(white));
            assert(self.board_state.current.attacked_squares@[opponent(white)] == Some(attacked));
            assert(self.view() == v);
            assert(self.occupied_spec() == occ);
            assert(bit_set(attacked, (a as int) as u64) <==> attacked_by(v, occ, opponent(white), a as int));
            assert(bit_set(attacked, (b as int) as u64) <==> attacked_by(v, occ, opponent(white), b as int));
            assert(bit_set(attacked, b) <==> attacked_by(v, occ, opponent(white), b as int));
        }
        (occupied | attacked) & mask == 0
    }
}

/// After a push, a sequence contains the pushed value and what it held before.
pub proof fn lemma_push_contains<T>(s: Seq<T>, x: T, m: T)
    ensures
        s.push(x).contains(m) <==> (s.contains(m) || m == x),
{
    if s.push(x).contains(m) && m != x {
        let k = choose|k: int| 0 <= k < s.push(x).len() && s.push(x)[k] == m;
        assert(s[k] == m);
    }
    if s.contains(m) {
        let k = choose|k: int| 0 <= k < s.len() && s[k] == m;
        assert(s.push(x)[k] == m);
    }
    if m == x {
        assert(s.push(x)[s.len() as int] == m);
    }
}

/// Pushing a value a sequence does not hold keeps it free of duplicates.
pub proof fn lemma_push_no_duplicates<T>(s: Seq<T>, x: T)
    requires
        s.no_duplicates(),
        !s.contains(x),
    ensures
        s.push(x).no_duplicates(),
{
    let t = s.push(x);
    assert forall|i: int, j: int| 0 <= i < t.len() && 0 <= j < t.len() && i != j implies t[i] != t[j] by {
        if i < s.len() && j < s.len() {
            assert(t[i] == s[i] && t[j] == s[j]);
        } else if i < s.len() {
            assert(t[i] == s[i]);
            assert(s.contains(s[i]));
        } else {
            assert(t[j] == s[j]);
            assert(s.contains(s[j]));
        }
    }
}

/// The flag of a pawn move: a promotion target on the last step, else 0.
pub open spec fn pawn_flag_ok(promotes: bool, flag: u8) -> bool {
    if promotes { is_promotable(flag as int) } else { flag == 0 }
}

/// The pawn on `s` would promote on its next step.
pub open spec fn pawn_promotes(v: Seq<int>, s: int) -> bool {
    s / 8 == if spec_is_piece_white(v[s]) { 1int } else { 6 }
}

/// One row forward for the pawn on `s`: toward square 0 for white.
pub open spec fn pawn_forward(v: Seq<int>, s: int) -> int {
    if spec_is_piece_white(v[s]) { -8 } else { 8 }
}

/// A push of the pawn on `s`: one step onto an empty square (as the four
/// promotions on the last step), or two from its starting row over two empty squares.
pub open spec fn pawn_push_move(v: Seq<int>, s: int, only_captures: bool, m: MoveData) -> bool {
    let p = v[s];
    let f = pawn_forward(v, s);
    let promotes = pawn_promotes(v, s);
    let home = s / 8 == if spec_is_piece_white(p) { 6int } else { 1 };
    let can_push = !only_captures && v[s + f] == 12;
    ||| can_push && m.piece as int == p && m.from as int == s && m.to as int == s + f && m.capture as int == NO_PIECE as int
        && pawn_flag_ok(promotes, m.flag)
    ||| can_push && !promotes && home && v[s + 2 * f] == 12 && m == move_of(DOUBLE_PAWN_PUSH_FLAG as int, NO_PIECE as int, p, s, s + 2 * f)
}

/// A diagonal capture of the pawn on `s` onto a piece of the other colour
/// (as the four promotions on the last step).
pub open spec fn pawn_capture_move(v: Seq<int>, s: int, m: MoveData) -> bool {
    let p = v[s];
    let to = m.to as int;
    &&& m.piece as int == p
    &&& m.from as int == s
    &&& to < 64
    &&& pawn_capture_step(color_of(p), s as u64, to as u64)
    &&& v[to] != 12
    &&& color_of(v[to]) != color_of(p)
    &&& m.capture as int == v[to]
    &&& pawn_flag_ok(pawn_promotes(v, s), m.flag)
}

/// An en-passant capture of the pawn on `s`: the last move was a double push
/// that ended beside it (the left side is looked at first).
pub open spec fn pawn_en_passant_move(v: Seq<int>, last: MoveData, s: int, m: MoveData) -> bool {
    let p = v[s];
    let f = pawn_forward(v, s);
    let left = s % 8 != 0 && last.to as int == s - 1;
    ||| last.flag == DOUBLE_PAWN_PUSH_FLAG && left && m == move_of(EN_PASSANT_FLAG as int, v[s - 1], p, s, s + f - 1)
    ||| last.flag == DOUBLE_PAWN_PUSH_FLAG && !left && s % 8 != 7 && last.to as int == s + 1
        && m == move_of(EN_PASSANT_FLAG as int, v[s + 1], p, s, s + f + 1)
}

/// The pseudo-legal moves of the pawn on `s`.
pub open spec fn pawn_move(v: Seq<int>, last: MoveData, s: int, only_captures: bool, m: MoveData) -> bool {
    ||| pawn_push_move(v, s, only_captures, m)
    ||| pawn_capture_move(v, s, m)
    ||| pawn_en_passant_move(v, last, s, m)
}

/// The four promotions of a pawn move, knight first.
pub open spec fn promotions_of(capture: u8, piece: u8, from: u8, to: u8) -> Seq<MoveData> {
    seq![
        MoveData { flag: 1, capture, piece, from, to },
        MoveData { flag: 2, capture, piece, from, to },
        MoveData { flag: 3, capture, piece, from, to },
        MoveData { flag: 4, capture, piece, from, to },
    ]
}

/// Pushes the four promotions of a pawn move.
fn push_promotions(result: &mut Vec<MoveData>, capture: u8, piece: u8, from: u8, to: u8)
    requires
        old(result)@.no_duplicates(),
        forall|k: int| 0 <= k < old(result)@.len() ==> !((#[trigger] old(result)@[k]).to == to && old(result)@[k].from == from
            && old(result)@[k].piece == piece && is_promotable(old(result)@[k].flag as int)),
    ensures
        final(result)@ == old(result)@ + promotions_of(capture, piece, from, to),
        final(result)@.no_duplicates(),
        forall|m: MoveData| #[trigger] final(result)@.contains(m) <==> (old(result)@.contains(m) || (m.to == to
            && m.from == from && m.piece == piece && m.capture == capture && is_promotable(m.flag as int))),
{
    let ghost start = result@;
    let mut promotion: u8 = KNIGHT as u8;
    while promotion <= QUEEN as u8
        invariant
            1 <= promotion <= 5,
            result@ == start + promotions_of(capture, piece, from, to).take(promotion - 1),
            start.no_duplicates(),
            forall|k: int| 0 <= k < start.len() ==> !((#[trigger] start[k]).to == to && start[k].from == from
                && start[k].piece == piece && is_promotable(start[k].flag as int)),
            result@.no_duplicates(),
        decreases 5 - promotion,
    {
        let m = MoveData { flag: promotion, capture, piece, from, to };
        proof {
            assert(!result@.contains(m)) by {
                if result@.contains(m) {
                    let k = choose|k: int| 0 <= k < result@.len() && result@[k] == m;
                    if k >= start.len() {
                        assert(result@[k].flag == k - start.len() + 1);
                    }
                }
            }
            lemma_push_no_duplicates(result@, m);
            assert(promotions_of(capture, piece, from, to).take(promotion as int) =~= promotions_of(capture, piece, from, to).take(
                promotion - 1,
            ).push(m));
        }
        result.push(m);
        promotion = promotion + 1;
    }
    proof {
        assert(promotions_of(capture, piece, from, to).take(4) =~= promotions_of(capture, piece, from, to));
        assert forall|m: MoveData| #[trigger] result@.contains(m) <==> (start.contains(m) || (m.to == to
            && m.from == from && m.piece == piece && m.capture == capture && is_promotable(m.flag as int))) by {
            let ps = promotions_of(capture, piece, from, to);
            if result@.contains(m) {
                let k = choose|k: int| 0 <= k < result@.len() && result@[k] == m;
                if k < start.len() {
                    assert(start[k] == m);
                } else {
                    assert(ps[k - start.len()] == m);
                }
            }
            if start.contains(m) {
                let k = choose|k: int| 0 <= k < start.len() && start[k] == m;
                assert(result@[k] == m);
            }
            if m.to == to && m.from == from && m.piece == piece && m.capture == capture && is_promotable(m.flag as int) {
                assert(result@[start.len() + m.flag - 1] == m);
            }
        }
    }
}

/// The pawn move of `piece` from `from` to `to` capturing `capture`: the four
/// promotions when `promotes`, else the plain move.
pub open spec fn pawn_step_moves(capture: int, piece: int, from: int, to: int, promotes: bool) -> Seq<MoveData> {
    if promotes {
        promotions_of(capture as u8, piece as u8, from as u8, to as u8)
    } else {
        seq![move_of(0, capture, piece, from, to)]
    }
}

/// The captures of the pawn `piece` from `from` onto the squares `squares`,
/// in the order of the squares.
pub open spec fn pawn_capture_moves(v: Seq<int>, piece: int, from: int, squares: Seq<int>, promotes: bool) -> Seq<MoveData>
    decreases squares.len(),
{
    if squares.len() == 0 {
        Seq::empty()
    } else {
        pawn_capture_moves(v, piece, from, squares.drop_last(), promotes) + pawn_step_moves(
            v[squares.last()],
            piece,
            from,
            squares.last(),
            promotes,
        )
    }
}

impl Board {
    /// Pushes, for each square of `targets`, the capture of the pawn `piece`
    /// from `from` onto it (as the four promotions when `promotes`).
    fn push_pawn_captures(&self, result: &mut Vec<MoveData>, piece: usize, from: u8, targets: u64, promotes: bool)
        requires
            self.bitboards_wf(),
            piece <= 12,
            from < 64,
            old(result)@.no_duplicates(),
            forall|k: int| 0 <= k < old(result)@.len() ==> !((#[trigger] old(result)@[k]).to < 64
                && bit_set(targets, old(result)@[k].to as u64)),
        ensures
            final(result)@.no_duplicates(),
            forall|m: MoveData| #[trigger] final(result)@.contains(m) <==> (old(result)@.contains(m) || (m.piece as int == piece
                && m.from == from && m.to < 64 && bit_set(targets, m.to as u64) && m.capture as int == self.view()[m.to as int]
                && pawn_flag_ok(promotes, m.flag))),
            final(result)@ == old(result)@ + pawn_capture_moves(self.view(), piece as int, from as int, set_bits(targets), promotes),
    {
        let ghost start = result@;
        let mut bitboard = targets;
        let ghost mut done: Seq<int> = Seq::empty();
        proof {
            self.lemma_view_is_bits();
        }
        while bitboard != 0
            invariant
                self.bitboards_wf(),
                piece <= 12,
                from < 64,
                result@.no_duplicates(),
                forall|j: u64| j < 64 && #[trigger] bit_set(bitboard, j) ==> bit_set(targets, j),
                forall|k: int| 0 <= k < result@.len() ==> !((#[trigger] result@[k]).to < 64 && bit_set(bitboard, result@[k].to as u64)),
                forall|m: MoveData| #[trigger] result@.contains(m) <==> (start.contains(m) || (m.piece as int == piece
                    && m.from == from && m.to < 64 && bit_set(targets, m.to as u64) && !bit_set(bitboard, m.to as u64)
                    && m.capture as int == self.view()[m.to as int] && pawn_flag_ok(promotes, m.flag))),
                done + set_bits(bitboard) == set_bits(targets),
                result@ == start + pawn_capture_moves(self.view(), piece as int, from as int, done, promotes),
            decreases bitboard,
        {
            let ghost before = bitboard;
            let ghost prev = result@;
            let to = pop_lsb(&mut bitboard);
            let capture = self.get_piece(to);
            proof {
                lemma_set_bits_pop(before, to as u64);
                assert(done.push(to as int) + set_bits(bitboard) =~= done + set_bits(before));
                assert(done.push(to as int).drop_last() =~= done);
                assert(pawn_capture_moves(self.view(), piece as int, from as int, done.push(to as int), promotes) == pawn_capture_moves(
                    self.view(),
                    piece as int,
                    from as int,
                    done,
                    promotes,
                ) + pawn_step_moves(self.view()[to as int], piece as int, from as int, to as int, promotes));
                done = done.push(to as int);
            }
            proof {
                assert forall|k: int| 0 <= k < prev.len() implies (#[trigger] prev[k]).to != to by {
                    assert(!(prev[k].to < 64 && bit_set(before, prev[k].to as u64)));
                }
            }
            if promotes {
                push_promotions(result, capture as u8, piece as u8, from, to);
                proof {
                    assert forall|k: int| 0 <= k < result@.len() implies !((#[trigger] result@[k]).to < 64 && bit_set(bitboard, result@[k].to as u64)) by {
                        if k < prev.len() {
                            assert(result@[k] == prev[k]);
                        } else {
                            assert(result@[k] == promotions_of(capture as u8, piece as u8, from, to)[k - prev.len()]);
                        }
                    }
                }
            } else {
                let m = MoveData { flag: 0, capture: capture as u8, piece: piece as u8, from, to };
                proof {
                    assert(!prev.contains(m)) by {
                        if prev.contains(m) {
                            let k = choose|k: int| 0 <= k < prev.len() && prev[k] == m;
                        }
                    }
                    lemma_push_no_duplicates(prev, m);
                }
                result.push(m);
                proof {
                    assert forall|mm: MoveData| #[trigger] result@.contains(mm) <==> (prev.contains(mm) || mm == m) by {
                        lemma_push_contains(prev, m, mm);
                    }
                }
            }
        }
        proof {
            lemma_zero_bits();
            lemma_set_bits_zero();
            assert(done =~= done + Seq::<int>::empty());
        }
    }
}

/// The forward moves of the pawn on `s`, in the order they are generated: the
/// step (as its four promotions on the last step), then the double step.
pub open spec fn pawn_push_moves(v: Seq<int>, s: int, only_captures: bool) -> Seq<MoveData> {
    let p = v[s];
    let f = pawn_forward(v, s);
    let promotes = pawn_promotes(v, s);
    let home = s / 8 == if spec_is_piece_white(p) { 6int } else { 1 };
    if !only_captures && v[s + f] == 12 {
        pawn_step_moves(NO_PIECE as int, p, s, s + f, promotes) + if !promotes && home && v[s + 2 * f] == 12 {
            seq![move_of(DOUBLE_PAWN_PUSH_FLAG as int, NO_PIECE as int, p, s, s + 2 * f)]
        } else {
            Seq::empty()
        }
    } else {
        Seq::empty()
    }
}

/// The squares the pawn on `s` can capture on: one row forward, one file
/// aside, holding a piece of the other colour.
pub open spec fn pawn_target(v: Seq<int>, s: int, j: int) -> bool {
    pawn_capture_step(color_of(v[s]), s as u64, j as u64) && v[j] != 12 && color_of(v[j]) != color_of(v[s])
}

/// The en-passant capture of the pawn on `s`, if there is one.
pub open spec fn pawn_en_passant_moves(v: Seq<int>, last: MoveData, s: int) -> Seq<MoveData> {
    let p = v[s];
    let f = pawn_forward(v, s);
    let left = s % 8 != 0 && last.to as int == s - 1;
    if last.flag == DOUBLE_PAWN_PUSH_FLAG && left {
        seq![move_of(EN_PASSANT_FLAG as int, v[s - 1], p, s, s + f - 1)]
    } else if last.flag == DOUBLE_PAWN_PUSH_FLAG && s % 8 != 7 && last.to as int == s + 1 {
        seq![move_of(EN_PASSANT_FLAG as int, v[s + 1], p, s, s + f + 1)]
    } else {
        Seq::empty()
    }
}

/// The moves of the pawn on `s` in the order they are generated: forward
/// moves, captures square by square, then en passant.
pub open spec fn pawn_move_list(v: Seq<int>, last: MoveData, s: int, only_captures: bool) -> Seq<MoveData> {
    pawn_push_moves(v, s, only_captures) + pawn_capture_moves(v, v[s], s, squares_where(|j: int| pawn_target(v, s, j)),
        pawn_promotes(v, s)) + pawn_en_passant_moves(v, last, s)
}

/// Pawns stand off the row they would move beyond: white ones below row 1
/// (squares 8 and up), black ones above row 6 (squares below 56).
pub open spec fn pawn_on_board(v: Seq<int>, s: int) -> bool {
    if spec_is_piece_white(v[s]) { s >= 8 } else { s < 56 }
}

impl Board {
    /// The pseudo-legal moves of the pawn on `piece_index`, pushed onto an empty `result`.
    fn add_pawn_moves(&self, result: &mut Vec<MoveData>, piece_index: u8, piece: usize, only_captures: bool)
        requires
            self.wf(),
            piece_index < 64,
            piece as int == self.view()[piece_index as int],
            spec_piece_type(piece as int) == PAWN,
            pawn_on_board(self.view(), piece_index as int),
            old(result)@.len() == 0,
        ensures
            final(result)@.no_duplicates(),
            forall|m: MoveData| #[trigger] final(result)@.contains(m) <==> pawn_move(self.view(), last_move_of(self.moves@),
                piece_index as int, only_captures, m),
            final(result)@ == pawn_move_list(self.view(), last_move_of(self.moves@), piece_index as int, only_captures),
    {
        let ghost v = self.view();
        let ghost s = piece_index as int;
        proof {
            self.lemma_view_is_bits();
        }
        let white = is_piece_white(piece);
        let rank = piece_index / 8;
        let will_promote = if white { rank == 1 } else { rank == 6 };
        let one = if white { piece_index - 8 } else { piece_index + 8 };
        proof {
            assert(will_promote == pawn_promotes(v, s));
            assert(one as int == s + pawn_forward(v, s));
        }
        if !only_captures && self.square_is_empty(one) {
            if will_promote {
                push_promotions(result, NO_PIECE as u8, piece as u8, piece_index, one);
            } else {
                let m = MoveData { flag: 0, capture: NO_PIECE as u8, piece: piece as u8, from: piece_index, to: one };
                result.push(m);
                let on_home_row = if white { rank == 6 } else { rank == 1 };
                if on_home_row {
                    let two = if white { piece_index - 16 } else { piece_index + 16 };
                    if self.square_is_empty(two) {
                        let d = MoveData { flag: DOUBLE_PAWN_PUSH_FLAG, capture: NO_PIECE as u8, piece: piece as u8, from: piece_index, to: two };
                        proof {
                            assert(result@ == seq![m]);
                            assert(result@[0] != d);
                            lemma_push_no_duplicates(result@, d);
                        }
                        result.push(d);
                    }
                }
            }
        }
        let ghost pushed = result@;
        proof {
            assert forall|mm: MoveData| #[trigger] pushed.contains(mm) <==> pawn_push_move(v, s, only_captures, mm) by {
                if pushed.contains(mm) {
                    let k = choose|k: int| 0 <= k < pushed.len() && pushed[k] == mm;
                }
                if pawn_push_move(v, s, only_captures, mm) {
                    if will_promote {
                        assert(pushed[mm.flag - 1] == mm);
                    } else if mm.to as int == s + pawn_forward(v, s) {
                        assert(pushed[0] == mm);
                    } else {
                        assert(pushed[1] == mm);
                    }
                }
            }
        }
        let color = white as usize;
        let targets = self.precalculated_move_data.pawn_attacks[color][piece_index as usize] & self.color_bitboards[1 - color];
        proof {
            let table = self.precalculated_move_data.pawn_attacks@[color as int]@;
            assert(color as int == color_of(piece as int));
            assert forall|j: int| 0 <= j < 64 implies (#[trigger] bit_set(targets, j as u64) <==> (pawn_capture_step(color as int, s as u64, j as u64)
                && v[j] != 12 && color_of(v[j]) != color_of(piece as int))) by {
                lemma_bit_ops(table[s], self.color_bitboards@[1 - color], j as u64);
                if color == 0 {
                    assert(bit_set(table[s], j as u64) <==> (|i: int, j: int| pawn_capture_step(0, i as u64, j as u64))(s, j));
                } else {
                    assert(bit_set(table[s], j as u64) <==> (|i: int, j: int| pawn_capture_step(1, i as u64, j as u64))(s, j));
                }
            }
            assert forall|k: int| 0 <= k < pushed.len() implies !((#[trigger] pushed[k]).to < 64 && bit_set(targets, pushed[k].to as u64)) by {
                assert(pawn_push_move(v, s, only_captures, pushed[k]));
            }
        }
        proof {
            assert(pushed =~= pawn_push_moves(v, s, only_captures));
            lemma_set_bits_where(targets, |j: int| pawn_target(v, s, j), 0);
        }
        self.push_pawn_captures(result, piece, piece_index, targets, will_promote);
        let ghost captured = result@;
        proof {
            assert(captured == pawn_push_moves(v, s, only_captures) + pawn_capture_moves(v, v[s], s, squares_where(|j: int| pawn_target(v, s, j)),
                pawn_promotes(v, s)));
        }
        proof {
            assert forall|mm: MoveData| #[trigger] captured.contains(mm) <==> (pawn_push_move(v, s, only_captures, mm)
                || pawn_capture_move(v, s, mm)) by {
                if mm.to < 64 {
                    assert(bit_set(targets, mm.to as u64) <==> (pawn_capture_step(color as int, s as u64, mm.to as u64)
                        && v[mm.to as int] != 12 && color_of(v[mm.to as int]) != color_of(piece as int)));
                }
            }
        }
        let last_move = self.get_last_move();
        if last_move.flag == DOUBLE_PAWN_PUSH_FLAG {
            if piece_index % 8 != 0 && last_move.to == piece_index - 1 {
                let to = if white { piece_index - 9 } else { piece_index + 7 };
                let capture = self.get_piece(piece_index - 1);
                let m = MoveData { flag: EN_PASSANT_FLAG, capture: capture as u8, piece: piece as u8, from: piece_index, to };
                proof {
                    assert(!captured.contains(m)) by {
                        if captured.contains(m) {
                            assert(pawn_push_move(v, s, only_captures, m) || pawn_capture_move(v, s, m));
                        }
                    }
                    lemma_push_no_duplicates(captured, m);
                    assert forall|mm: MoveData| #[trigger] captured.push(m).contains(mm) <==> (captured.contains(mm) || mm == m) by {
                        lemma_push_contains(captured, m, mm);
                    }
                }
                result.push(m);
            } else if piece_index % 8 != 7 && last_move.to == piece_index + 1 {
                let to = if white { piece_index - 7 } else { piece_index + 9 };
                let capture = self.get_piece(piece_index + 1);
                let m = MoveData { flag: EN_PASSANT_FLAG, capture: capture as u8, piece: piece as u8, from: piece_index, to };
                proof {
                    assert(!captured.contains(m)) by {
                        if captured.contains(m) {
                            assert(pawn_push_move(v, s, only_captures, m) || pawn_capture_move(v, s, m));
                        }
                    }
                    lemma_push_no_duplicates(captured, m);
                    assert forall|mm: MoveData| #[trigger] captured.push(m).contains(mm) <==> (captured.contains(mm) || mm == m) by {
                        lemma_push_contains(captured, m, mm);
                    }
                }
                result.push(m);
            }
        }
    }
}

/// The pseudo-legal moves of the piece on `s` (an empty square is read as a
/// white pawn, as the piece encoding gives it): pawn moves, steps and slides
/// onto squares without a piece of the mover's colour, and for a king the
/// castling moves that are allowed.
pub open spec fn piece_move(v: Seq<int>, occ: u64, last: MoveData, rights: u8, s: int, only_captures: bool, m: MoveData) -> bool {
    let p = v[s];
    let white = spec_is_piece_white(p);
    if spec_piece_type(p) == PAWN {
        pawn_move(v, last, s, only_captures, m)
    } else if spec_piece_type(p) == KING {
        ||| step_move(v, occ, s, only_captures, m)
        ||| !only_captures && short_castle_allowed(v, occ, rights, white)
            && m == move_of(SHORT_CASTLE_FLAG as int, NO_PIECE as int, p, s, s + 2)
        ||| !only_captures && long_castle_allowed(v, occ, rights, white)
            && m == move_of(LONG_CASTLE_FLAG as int, NO_PIECE as int, p, s, s - 2)
    } else {
        step_move(v, occ, s, only_captures, m)
    }
}

/// Square `j` is a destination of the non-pawn piece on `s`: attacked by it,
/// not holding a piece of its colour, and with `only_captures` holding the
/// piece whose index is the mover's colour flipped. That is the engine's
/// capture mask as it stands: it indexes the piece bitboards with the colour,
/// so a white piece's captures are those of a black pawn (index 0) and a
/// black piece's those of a black knight (index 1).
pub open spec fn step_target(v: Seq<int>, occ: u64, s: int, only_captures: bool, j: int) -> bool {
    &&& piece_attacks(v[s], s, occ, j)
    &&& !(v[j] != 12 && color_of(v[j]) == color_of(v[s]))
    &&& only_captures ==> v[j] == if spec_is_piece_white(v[s]) { 0int } else { 1 }
}

/// The castling moves of the king on `s` that are allowed, short first.
pub open spec fn castle_move_list(v: Seq<int>, occ: u64, rights: u8, s: int) -> Seq<MoveData> {
    let p = v[s];
    let white = spec_is_piece_white(p);
    (if short_castle_allowed(v, occ, rights, white) {
        seq![move_of(SHORT_CASTLE_FLAG as int, NO_PIECE as int, p, s, s + 2)]
    } else {
        Seq::empty()
    }) + (if long_castle_allowed(v, occ, rights, white) {
        seq![move_of(LONG_CASTLE_FLAG as int, NO_PIECE as int, p, s, s - 2)]
    } else {
        Seq::empty()
    })
}

/// The moves of the piece on `s` in the order they are generated: for a pawn
/// see `pawn_move_list`; a king's castling moves come before its steps; the
/// steps and slides go square by square.
pub open spec fn piece_move_list(v: Seq<int>, occ: u64, last: MoveData, rights: u8, s: int, only_captures: bool) -> Seq<MoveData> {
    let p = v[s];
    let steps = target_moves(v, p, s, squares_where(|j: int| step_target(v, occ, s, only_captures, j)));
    if spec_piece_type(p) == PAWN {
        pawn_move_list(v, last, s, only_captures)
    } else if spec_piece_type(p) == KING && !only_captures {
        castle_move_list(v, occ, rights, s) + steps
    } else {
        steps
    }
}

/// Generating the moves of the piece on `s` stays on the board: a pawn is not
/// on the row it would move beyond, and a king that may castle long stands on
/// square 2 or above.
pub open spec fn piece_movable(v: Seq<int>, occ: u64, rights: u8, s: int, only_captures: bool) -> bool {
    &&& spec_piece_type(v[s]) == PAWN ==> pawn_on_board(v, s)
    &&& (spec_piece_type(v[s]) == KING && !only_captures && long_castle_allowed(v, occ, rights, spec_is_piece_white(v[s]))) ==> s >= 2
}

impl Board {
    /// The pseudo-legal moves of the piece on `piece_index` (see `piece_move`),
    /// each once; with `only_captures`, no pushes and no castling.
    pub fn get_moves_for_piece(&mut self, piece_index: u8, only_captures: bool) -> (r: Vec<MoveData>)
        requires
            old(self).wf(),
            piece_index < 64,
            piece_movable(old(self).view(), old(self).occupied_spec(), old(self).board_state.current.castling_rights, piece_index as int, only_captures),
        ensures
            final(self).wf(),
            final(self).same_but_caches(old(self)),
            r@.no_duplicates(),
            forall|m: MoveData| #[trigger] r@.contains(m) <==> piece_move(old(self).view(), old(self).occupied_spec(),
                last_move_of(old(self).moves@), old(self).board_state.current.castling_rights, piece_index as int, only_captures, m),
            r@ == piece_move_list(old(self).view(), old(self).occupied_spec(), last_move_of(old(self).moves@),
                old(self).board_state.current.castling_rights, piece_index as int, only_captures),
    {
        let ghost v = self.view();
        let ghost occ = self.occupied_spec();
        let ghost s = piece_index as int;
        let mut result: Vec<MoveData> = Vec::new();
        let piece = self.get_piece(piece_index);
        let piece_is_white = is_piece_white(piece);
        let piece_type = get_piece_type(piece);
        proof {
            self.lemma_view_is_bits();
        }
        if piece_type == PAWN {
            self.add_pawn_moves(&mut result, piece_index, piece, only_captures);
            return result;
        }
        let own = self.color_bitboards[piece_is_white as usize];
        if piece_type == KING && !only_captures {
            if self.can_short_castle(piece_is_white) {
                result.push(MoveData {
                    flag: SHORT_CASTLE_FLAG,
                    capture: NO_PIECE as u8,
                    piece: piece as u8,
                    from: piece_index,
                    to: piece_index + 2,
                });
            }
            let ghost after_short = result@;
            if self.can_long_castle(piece_is_white) {
                let m = MoveData {
                    flag: LONG_CASTLE_FLAG,
                    capture: NO_PIECE as u8,
                    piece: piece as u8,
                    from: piece_index,
                    to: piece_index - 2,
                };
                proof {
                    assert(!after_short.contains(m)) by {
                        if after_short.contains(m) {
                            assert(after_short[0] == m);
                        }
                    }
                    lemma_push_no_duplicates(after_short, m);
                }
                result.push(m);
            }
        }
        let ghost castles = result@;
        proof {
            assert(self.view() == v);
            assert(self.occupied_spec() == occ);
            assert(piece_is_white == spec_is_piece_white(piece as int));
            assert(spec_build_piece(piece_is_white, piece_type as int) == piece);
            assert forall|mm: MoveData| #[trigger] castles.contains(mm) <==> (piece_type == KING && !only_captures && (
                (short_castle_allowed(v, occ, old(self).board_state.current.castling_rights, piece_is_white)
                    && mm == move_of(SHORT_CASTLE_FLAG as int, NO_PIECE as int, piece as int, s, s + 2))
                || (long_castle_allowed(v, occ, old(self).board_state.current.castling_rights, piece_is_white)
                    && mm == move_of(LONG_CASTLE_FLAG as int, NO_PIECE as int, piece as int, s, s - 2)))) by {
                if castles.contains(mm) {
                    let k = choose|k: int| 0 <= k < castles.len() && castles[k] == mm;
                }
                if piece_type == KING && !only_captures && short_castle_allowed(v, occ, old(self).board_state.current.castling_rights, piece_is_white)
                    && mm == move_of(SHORT_CASTLE_FLAG as int, NO_PIECE as int, piece as int, s, s + 2) {
                    assert(castles[0] == mm);
                }
                if piece_type == KING && !only_captures && long_castle_allowed(v, occ, old(self).board_state.current.castling_rights, piece_is_white)
                    && mm == move_of(LONG_CASTLE_FLAG as int, NO_PIECE as int, piece as int, s, s - 2) {
                    assert(castles[castles.len() - 1] == mm);
                }
            }
        }
        let attacks = self.attacks_of_piece(piece_type, piece_is_white as usize, piece_index as usize);
        let mut targets = attacks & !own;
        if only_captures {
            targets = targets & self.piece_bitboards[(!piece_is_white) as usize];
        }
        proof {
            let prey: int = if piece_is_white { 0 } else { 1 };
            assert(((!piece_is_white) as usize) as int == prey);
            assert forall|j: int| 0 <= j < 64 implies (#[trigger] bit_set(targets, j as u64) <==> (piece_attacks(piece as int, s, occ, j)
                && !(v[j] != 12 && color_of(v[j]) == color_of(piece as int)) && (only_captures ==> v[j] == prey))) by {
                lemma_bit_ops(attacks, !own, j as u64);
                lemma_bit_ops(own, own, j as u64);
                lemma_bit_ops(attacks & !own, self.piece_bitboards@[prey], j as u64);
                assert(bit_set(own, j as u64) <==> (v[j] != 12 && color_of(v[j]) == (piece_is_white as int)));
            }
            assert forall|k: int| 0 <= k < castles.len() implies !((#[trigger] castles[k]).flag == 0 && castles[k].to < 64
                && bit_set(targets, castles[k].to as u64)) by {
                assert(castles.contains(castles[k]));
            }
        }
        proof {
            lemma_set_bits_where(targets, |j: int| step_target(v, occ, s, only_captures, j), 0);
            if piece_type == KING && !only_captures {
                assert(castles =~= castle_move_list(v, occ, old(self).board_state.current.castling_rights, s));
            } else {
                assert(castles =~= Seq::<MoveData>::empty());
            }
        }
        self.push_target_moves(&mut result, piece, piece_index, targets);
        proof {
            assert forall|mm: MoveData| #[trigger] result@.contains(mm) <==> piece_move(v, occ, last_move_of(old(self).moves@),
                old(self).board_state.current.castling_rights, s, only_captures, mm) by {
                if mm.to < 64 {
                    assert(bit_set(targets, mm.to as u64) <==> (piece_attacks(piece as int, s, occ, mm.to as int)
                        && !(v[mm.to as int] != 12 && color_of(v[mm.to as int]) == color_of(piece as int))
                        && (only_captures ==> v[mm.to as int] == if piece_is_white { 0int } else { 1 })));
                }
            }
        }
        result
    }
}

/// Every move generated for the piece on `s` starts from `s`.
pub proof fn lemma_piece_move_from(v: Seq<int>, occ: u64, last: MoveData, rights: u8, s: int, only_captures: bool, m: MoveData)
    requires
        0 <= s < 64,
        piece_move(v, occ, last, rights, s, only_captures, m),
    ensures
        m.from as int == s,
{
}

/// After appending `t`, a sequence contains what either part contains.
pub proof fn lemma_append_contains<T>(s: Seq<T>, t: Seq<T>, m: T)
    ensures
        (s + t).contains(m) <==> (s.contains(m) || t.contains(m)),
{
    if (s + t).contains(m) {
        let k = choose|k: int| 0 <= k < (s + t).len() && (s + t)[k] == m;
        if k < s.len() {
            assert(s[k] == m);
        } else {
            assert(t[k - s.len()] == m);
        }
    }
    if s.contains(m) {
        let k = choose|k: int| 0 <= k < s.len() && s[k] == m;
        assert((s + t)[k] == m);
    }
    if t.contains(m) {
        let k = choose|k: int| 0 <= k < t.len() && t[k] == m;
        assert((s + t)[s.len() + k] == m);
    }
}

/// Appending a sequence without duplicates that shares nothing with `s` keeps
/// `s` free of duplicates.
pub proof fn lemma_append_no_duplicates<T>(s: Seq<T>, t: Seq<T>)
    requires
        s.no_duplicates(),
        t.no_duplicates(),
        forall|m: T| s.contains(m) ==> !t.contains(m),
    ensures
        (s + t).no_duplicates(),
{
    let u = s + t;
    assert forall|i: int, j: int| 0 <= i < u.len() && 0 <= j < u.len() && i != j implies u[i] != u[j] by {
        if i < s.len() && j >= s.len() {
            assert(s.contains(s[i]));
            assert(t[j - s.len()] == u[j]);
            assert(t.contains(t[j - s.len()]));
        } else if i >= s.len() && j < s.len() {
            assert(s.contains(s[j]));
            assert(t[i - s.len()] == u[i]);
            assert(t.contains(t[i - s.len()]));
        } else if i < s.len() {
            assert(u[i] == s[i] && u[j] == s[j]);
        } else {
            assert(u[i] == t[i - s.len()] && u[j] == t[j - s.len()]);
        }
    }
}

/// The colour index of `white`: 1 for white, 0 for black.
pub open spec fn color_index(white: bool) -> int {
    if white { 1 } else { 0 }
}

/// Every piece of colour `white` can have its moves generated (see `piece_movable`).
pub open spec fn color_movable(v: Seq<int>, occ: u64, rights: u8, white: bool, only_captures: bool) -> bool {
    forall|s: int| 0 <= s < 64 && v[s] != 12 && spec_is_piece_white(v[s]) == white ==> #[trigger] piece_movable(v, occ, rights, s, only_captures)
}

/// `m` is a pseudo-legal move of some piece of colour `white`.
pub open spec fn color_move(v: Seq<int>, occ: u64, last: MoveData, rights: u8, white: bool, only_captures: bool, m: MoveData) -> bool {
    let s = m.from as int;
    &&& s < 64
    &&& v[s] != 12
    &&& spec_is_piece_white(v[s]) == white
    &&& piece_move(v, occ, last, rights, s, only_captures, m)
}

/// The moves of the pieces on the squares `squares`, square by square.
pub open spec fn squares_move_list(v: Seq<int>, occ: u64, last: MoveData, rights: u8, squares: Seq<int>, only_captures: bool) -> Seq<MoveData>
    decreases squares.len(),
{
    if squares.len() == 0 {
        Seq::empty()
    } else {
        squares_move_list(v, occ, last, rights, squares.drop_last(), only_captures) + piece_move_list(v, occ, last, rights,
            squares.last(), only_captures)
    }
}

/// The moves of the first `n` piece kinds of colour `white` (pawns first,
/// king last), each kind square by square.
pub open spec fn color_move_list_upto(v: Seq<int>, occ: u64, last: MoveData, rights: u8, white: bool, only_captures: bool, n: int) -> Seq<MoveData>
    decreases n,
{
    if n <= 0 {
        Seq::empty()
    } else {
        let piece = (if white { 6int } else { 0int }) + n - 1;
        color_move_list_upto(v, occ, last, rights, white, only_captures, n - 1) + squares_move_list(v, occ, last, rights,
            squares_where(|t: int| v[t] == piece), only_captures)
    }
}

/// The moves of all pieces of colour `white` in the order they are generated.
pub open spec fn color_move_list(v: Seq<int>, occ: u64, last: MoveData, rights: u8, white: bool, only_captures: bool) -> Seq<MoveData> {
    color_move_list_upto(v, occ, last, rights, white, only_captures, 6)
}

impl Board {
    /// The pseudo-legal moves of all pieces of one colour (see `color_move`),
    /// each once, piece by piece from pawn to king and square by square.
    pub fn get_pseudo_legal_moves_for_color(&mut self, white_pieces: bool, only_captures: bool) -> (r: Vec<MoveData>)
        requires
            old(self).wf(),
            color_movable(old(self).view(), old(self).occupied_spec(), old(self).board_state.current.castling_rights, white_pieces, only_captures),
        ensures
            final(self).wf(),
            final(self).same_but_caches(old(self)),
            r@.no_duplicates(),
            forall|m: MoveData| #[trigger] r@.contains(m) <==> color_move(old(self).view(), old(self).occupied_spec(),
                last_move_of(old(self).moves@), old(self).board_state.current.castling_rights, white_pieces, only_captures, m),
            r@ == color_move_list(old(self).view(), old(self).occupied_spec(), last_move_of(old(self).moves@),
                old(self).board_state.current.castling_rights, white_pieces, only_captures),
    {
        let ghost v = self.view();
        let ghost occ = self.occupied_spec();
        let ghost last = last_move_of(self.moves@);
        let ghost rights = self.board_state.current.castling_rights;
        let mut result: Vec<MoveData> = Vec::new();
        let first = if white_pieces { WHITE_PAWN } else { BLACK_PAWN };
        let end = first + 6;
        let mut piece = first;
        proof {
            self.lemma_view_is_bits();
        }
        while piece < end
            invariant
                first <= piece <= end,
                end == first + 6,
                first == if white_pieces { 6usize } else { 0usize },
                self.wf(),
                self.same_but_caches(old(self)),
                self.view() == v,
                self.occupied_spec() == occ,
                last == last_move_of(self.moves@),
                rights == self.board_state.current.castling_rights,
                color_movable(v, occ, rights, white_pieces, only_captures),
                forall|q: int, t: int| 0 <= q < 12 && 0 <= t < 64 ==> (#[trigger] bit_set(self.piece_bitboards@[q], t as u64) <==> v[t] == q),
                forall|t: int| 0 <= t < 64 ==> 0 <= #[trigger] v[t] <= 12,
                result@.no_duplicates(),
                forall|m: MoveData| #[trigger] result@.contains(m) <==> (color_move(v, occ, last, rights, white_pieces, only_captures, m)
                    && v[m.from as int] < piece),
                result@ == color_move_list_upto(v, occ, last, rights, white_pieces, only_captures, piece - first),
            decreases end - piece,
        {
            let mut bitboard = self.piece_bitboards[piece];
            let ghost base = result@;
            let ghost mut done: Seq<int> = Seq::empty();
            proof {
                assert(result@ =~= base + squares_move_list(v, occ, last, rights, done, only_captures));
            }
            while bitboard != 0
                invariant
                    first <= piece < end,
                    end == first + 6,
                    first == if white_pieces { 6usize } else { 0usize },
                    self.wf(),
                    self.same_but_caches(old(self)),
                    self.view() == v,
                    self.occupied_spec() == occ,
                    last == last_move_of(self.moves@),
                    rights == self.board_state.current.castling_rights,
                    color_movable(v, occ, rights, white_pieces, only_captures),
                    forall|q: int, t: int| 0 <= q < 12 && 0 <= t < 64 ==> (#[trigger] bit_set(self.piece_bitboards@[q], t as u64) <==> v[t] == q),
                    forall|t: int| 0 <= t < 64 ==> 0 <= #[trigger] v[t] <= 12,
                    forall|j: u64| j < 64 && #[trigger] bit_set(bitboard, j) ==> v[j as int] == piece,
                    result@.no_duplicates(),
                    forall|m: MoveData| #[trigger] result@.contains(m) <==> (color_move(v, occ, last, rights, white_pieces, only_captures, m)
                        && (v[m.from as int] < piece || (v[m.from as int] == piece && !bit_set(bitboard, m.from as u64)))),
                    base == color_move_list_upto(v, occ, last, rights, white_pieces, only_captures, piece - first),
                    done + set_bits(bitboard) == set_bits(self.piece_bitboards@[piece as int]),
                    result@ == base + squares_move_list(v, occ, last, rights, done, only_captures),
                decreases bitboard,
            {
                let ghost before = bitboard;
                let piece_index = pop_lsb(&mut bitboard);
                proof {
                    assert(v[piece_index as int] == piece);
                    assert(piece_movable(v, occ, rights, piece_index as int, only_captures));
                    lemma_set_bits_pop(before, piece_index as u64);
                    assert(done.push(piece_index as int) + set_bits(bitboard) =~= done + set_bits(before));
                    assert(done.push(piece_index as int).drop_last() =~= done);
                    done = done.push(piece_index as int);
                }
                let ghost prev = result@;
                let mut moves = self.get_moves_for_piece(piece_index, only_captures);
                proof {
                    self.lemma_view_is_bits();
                    assert forall|m: MoveData| #[trigger] moves@.contains(m) <==> (color_move(v, occ, last, rights, white_pieces, only_captures, m)
                        && m.from == piece_index) by {
                        if moves@.contains(m) {
                            lemma_piece_move_from(v, occ, last, rights, piece_index as int, only_captures, m);
                        }
                    }
                    assert forall|m: MoveData| prev.contains(m) implies !moves@.contains(m) by {
                        if prev.contains(m) && moves@.contains(m) {
                            assert(!bit_set(before, m.from as u64));
                        }
                    }
                    lemma_append_no_duplicates(prev, moves@);
                    assert forall|m: MoveData| #[trigger] (prev + moves@).contains(m) <==> (prev.contains(m) || moves@.contains(m)) by {
                        lemma_append_contains(prev, moves@, m);
                    }
                }
                result.append(&mut moves);
                proof {
                    assert(result@ =~= base + squares_move_list(v, occ, last, rights, done, only_captures));
                }
            }
            proof {
                lemma_zero_bits();
                lemma_set_bits_zero();
                assert(done =~= done + Seq::<int>::empty());
                lemma_set_bits_where(self.piece_bitboards@[piece as int], |t: int| v[t] == piece as int, 0);
                assert(result@ =~= color_move_list_upto(v, occ, last, rights, white_pieces, only_captures, piece + 1 - first));
                assert forall|m: MoveData| #[trigger] result@.contains(m) <==> (color_move(v, occ, last, rights, white_pieces, only_captures, m)
                    && v[m.from as int] < piece + 1) by {
                    if color_move(v, occ, last, rights, white_pieces, only_captures, m) && v[m.from as int] == piece {
                        assert(!bit_set(bitboard, m.from as u64));
                    }
                }
            }
            piece = piece + 1;
        }
        proof {
            assert forall|m: MoveData| #[trigger] result@.contains(m) <==> color_move(v, occ, last, rights, white_pieces, only_captures, m) by {
                if color_move(v, occ, last, rights, white_pieces, only_captures, m) {
                    assert(v[m.from as int] < end);
                }
            }
        }
        result
    }
}

/// `m` is a move that `play_move` takes for the request `data`: same origin and
/// destination, and the same flag when `data` asks for a promotion.
pub open spec fn play_matches(data: MoveData, m: MoveData) -> bool {
    &&& (!is_promotable(data.flag as int) || data.flag == m.flag)
    &&& m.from == data.from
    &&& m.to == data.to
}

/// The moves of the piece on the origin of `data`, in generation order.
pub open spec fn request_moves(b: &Board, data: MoveData) -> Seq<MoveData> {
    piece_move_list(b.view(), b.occupied_spec(), last_move_of(b.moves@), b.board_state.current.castling_rights, data.from as int,
        false)
}

/// `m` answers the request `data` (see `play_matches`) and keeps the own king
/// of the side to move in `b` safe.
pub open spec fn playable(b: &Board, data: MoveData, m: MoveData) -> bool {
    &&& play_matches(data, m)
    &&& !king_attacked(apply_move_view(b.view(), m), occupancy_for(apply_move_view(b.view(), m)), b.white_to_move)
}

impl Board {
    /// Plays the request `data` if the piece on its origin belongs to the side
    /// to move and one of that piece's pseudo-legal moves matches it (see
    /// `play_matches`) and keeps the own king safe; the first such move in the
    /// order of `piece_move_list` is made. Returns whether a move was made.
    pub fn play_move(&mut self, data: MoveData) -> (r: bool)
        requires
            old(self).wf(),
            data.from < 64,
            old(self).moves@.len() + 1 < usize::MAX,
            old(self).board_state.current.fifty_move_counter < 255,
            piece_movable(old(self).view(), old(self).occupied_spec(), old(self).board_state.current.castling_rights, data.from as int, false),
            forall|m: MoveData| #[trigger] piece_move(old(self).view(), old(self).occupied_spec(), last_move_of(old(self).moves@),
                old(self).board_state.current.castling_rights, data.from as int, false, m) ==> move_fits(old(self).view(), m),
        ensures
            final(self).wf(),
            r == (old(self).white_to_move == spec_is_piece_white(old(self).view()[data.from as int]) && exists|m: MoveData|
                #[trigger] piece_move(old(self).view(), old(self).occupied_spec(), last_move_of(old(self).moves@),
                    old(self).board_state.current.castling_rights, data.from as int, false, m) && play_matches(data, m)
                    && !king_attacked(apply_move_view(old(self).view(), m), occupancy_for(apply_move_view(old(self).view(), m)),
                    old(self).white_to_move)),
            r ==> exists|k: int| {
                &&& 0 <= k < request_moves(old(self), data).len()
                &&& playable(old(self), data, #[trigger] request_moves(old(self), data)[k])
                &&& forall|j: int| 0 <= j < k ==> !playable(old(self), data, #[trigger] request_moves(old(self), data)[j])
                &&& final(self).is_after_move(old(self), request_moves(old(self), data)[k])
            },
            !r ==> final(self).same_position(old(self)),
    {
        let ghost v = self.view();
        let ghost occ = self.occupied_spec();
        let ghost last = last_move_of(self.moves@);
        let ghost rights = self.board_state.current.castling_rights;
        let promoting = promotable_contains(data.flag);
        let piece = self.get_piece(data.from);
        if self.white_to_move == is_piece_white(piece) {
            let moves = self.get_moves_for_piece(data.from, false);
            proof {
                self.lemma_wf_same_but_caches(old(self));
            }
            let mut i: usize = 0;
            while i < moves.len()
                invariant
                    i <= moves@.len(),
                    self.wf(),
                    self.same_position(old(self)),
                    v == old(self).view(),
                    occ == old(self).occupied_spec(),
                    last == last_move_of(old(self).moves@),
                    rights == old(self).board_state.current.castling_rights,
                    promoting == is_promotable(data.flag as int),
                    old(self).moves@.len() + 1 < usize::MAX,
                    old(self).board_state.current.fifty_move_counter < 255,
                    old(self).white_to_move == spec_is_piece_white(v[data.from as int]),
                    forall|m: MoveData| #[trigger] moves@.contains(m) <==> piece_move(v, occ, last, rights, data.from as int, false, m),
                    moves@ == piece_move_list(v, occ, last, rights, data.from as int, false),
                    forall|m: MoveData| #[trigger] piece_move(v, occ, last, rights, data.from as int, false, m) ==> move_fits(v, m),
                    forall|k: int| 0 <= k < i ==> !(play_matches(data, #[trigger] moves@[k]) && !king_attacked(
                        apply_move_view(v, moves@[k]), occupancy_for(apply_move_view(v, moves@[k])), old(self).white_to_move)),
                decreases moves@.len() - i,
            {
                let m = moves[i];
                proof {
                    assert(moves@.contains(m));
                }
                if (!promoting || data.flag == m.flag) && m.from == data.from && m.to == data.to {
                    let ghost before = *self;
                    if self.make_move(m) {
                        proof {
                            assert(piece_move(v, occ, last, rights, data.from as int, false, m));
                            assert(request_moves(old(self), data) == moves@);
                            assert(playable(old(self), data, moves@[i as int]));
                            assert forall|j: int| 0 <= j < i implies !playable(old(self), data, #[trigger] moves@[j]) by {
                                assert(!(play_matches(data, moves@[j]) && !king_attacked(apply_move_view(v, moves@[j]),
                                    occupancy_for(apply_move_view(v, moves@[j])), old(self).white_to_move)));
                            }
                        }
                        return true;
                    }
                }
                i = i + 1;
            }
            proof {
                assert forall|m: MoveData| #[trigger] piece_move(v, occ, last, rights, data.from as int, false, m) implies !(play_matches(data, m)
                    && !king_attacked(apply_move_view(v, m), occupancy_for(apply_move_view(v, m)), old(self).white_to_move)) by {
                    assert(moves@.contains(m));
                    let k = choose|k: int| 0 <= k < moves@.len() && moves@[k] == m;
                }
            }
        }
        false
    }
}

impl Board {
    /// Whether some piece of colour `white_pieces` attacks a square of `square_bitboard`.
    pub fn square_is_attacked_by_color(&self, square_bitboard: u64, white_pieces: bool) -> (r: bool)
        requires
            self.wf(),
        ensures
            r == exists|j: int| 0 <= j < 64 && bit_set(square_bitboard, j as u64) && #[trigger] attacked_by(self.view(),
                self.occupied_spec(), color_index(white_pieces), j),
    {
        let ghost v = self.view();
        let ghost occ = self.occupied_spec();
        let color = white_pieces as usize;
        let first = if white_pieces { WHITE_PAWN } else { BLACK_PAWN };
        let end = first + 6;
        let mut piece = first;
        proof {
            self.lemma_view_is_bits();
        }
        while piece < end
            invariant
                first <= piece <= end,
                end == first + 6,
                first == if white_pieces { 6usize } else { 0usize },
                color as int == color_index(white_pieces),
                self.wf(),
                v == self.view(),
                occ == self.occupied_spec(),
                forall|q: int, t: int| 0 <= q < 12 && 0 <= t < 64 ==> (#[trigger] bit_set(self.piece_bitboards@[q], t as u64) <==> v[t] == q),
                forall|t: int| 0 <= t < 64 ==> 0 <= #[trigger] v[t] <= 12,
                forall|t: int, j: int| 0 <= t < 64 && 0 <= j < 64 && first <= v[t] < piece && bit_set(square_bitboard, j as u64)
                    ==> !#[trigger] piece_attacks(v[t], t, occ, j),
            decreases end - piece,
        {
            let mut bitboard = self.piece_bitboards[piece];
            let piece_type = get_piece_type(piece);
            while bitboard != 0
                invariant
                    first <= piece < end,
                    end == first + 6,
                    first == if white_pieces { 6usize } else { 0usize },
                    color as int == color_index(white_pieces),
                    piece_type as int == spec_piece_type(piece as int),
                    self.wf(),
                    v == self.view(),
                    occ == self.occupied_spec(),
                    forall|q: int, t: int| 0 <= q < 12 && 0 <= t < 64 ==> (#[trigger] bit_set(self.piece_bitboards@[q], t as u64) <==> v[t] == q),
                    forall|t: int| 0 <= t < 64 ==> 0 <= #[trigger] v[t] <= 12,
                    forall|j: u64| j < 64 && #[trigger] bit_set(bitboard, j) ==> v[j as int] == piece,
                    forall|t: int, j: int| 0 <= t < 64 && 0 <= j < 64 && (first <= v[t] < piece || (v[t] == piece && !bit_set(bitboard, t as u64)))
                        && bit_set(square_bitboard, j as u64) ==> !#[trigger] piece_attacks(v[t], t, occ, j),
                decreases bitboard,
            {
                let ghost before = bitboard;
                let piece_index = pop_lsb(&mut bitboard);
                let attacks = self.attacks_of_piece(piece_type, color, piece_index as usize);
                proof {
                    assert(spec_build_piece(color == 1, piece_type as int) == piece);
                }
                if attacks & square_bitboard != 0 {
                    proof {
                        lemma_and_nonzero(attacks, square_bitboard);
                        let j = choose|j: u64| j < 64 && #[trigger] bit_set(attacks, j) && bit_set(square_bitboard, j);
                        assert(bit_set(attacks, (j as int) as u64));
                        assert(attacked_by(v, occ, color_index(white_pieces), j as int));
                    }
                    return true;
                }
                proof {
                    lemma_and_nonzero(attacks, square_bitboard);
                    assert forall|t: int, j: int| 0 <= t < 64 && 0 <= j < 64 && (first <= v[t] < piece || (v[t] == piece && !bit_set(bitboard, t as u64)))
                        && bit_set(square_bitboard, j as u64) implies !#[trigger] piece_attacks(v[t], t, occ, j) by {
                        if t == piece_index as int {
                            assert(!(bit_set(attacks, j as u64) && bit_set(square_bitboard, j as u64)));
                        } else {
                            assert(bit_set(bitboard, t as u64) == (bit_set(before, t as u64) && t as u64 != piece_index as u64));
                        }
                    }
                }
            }
            proof {
                lemma_zero_bits();
            }
            piece = piece + 1;
        }
        proof {
            assert forall|j: int| 0 <= j < 64 && bit_set(square_bitboard, j as u64) implies !#[trigger] attacked_by(v, occ, color_index(white_pieces), j) by {
                if attacked_by(v, occ, color_index(white_pieces), j) {
                    let t = choose|t: int| 0 <= t < 64 && 0 <= v[t] < 12 && color_of(v[t]) == color_index(white_pieces)
                        && #[trigger] piece_attacks(v[t], t, occ, j);
                    assert(first <= v[t] < end);
                }
            }
        }
        false
    }
}

impl Board {
    /// Whether `m` can be made on this placement (see `move_fits`), so that
    /// callers can test it before `make_move`.
    pub fn move_fits_now(&self, m: MoveData) -> (r: bool)
        requires
            self.bitboards_wf(),
        ensures
            r == move_fits(self.view(), m),
    {
        proof {
            self.lemma_view_is_bits();
        }
        let white = is_piece_white(m.piece as usize);
        if m.piece >= 12 || m.from >= 64 || m.to >= 64 || m.from == m.to {
            return false;
        }
        if m.capture != NO_PIECE as u8 && m.capture >= 12 {
            return false;
        }
        if m.flag == SHORT_CASTLE_FLAG && !(1 <= m.to && m.to + 1 < 64) {
            return false;
        }
        if m.flag == LONG_CASTLE_FLAG && !(2 <= m.to && m.to + 1 < 64) {
            return false;
        }
        if m.capture != NO_PIECE as u8 && m.flag == EN_PASSANT_FLAG {
            if white {
                if !(m.to + 8 < 64) {
                    return false;
                }
            } else {
                if !(m.to >= 8) {
                    return false;
                }
            }
        }
        if self.get_piece(m.from) != m.piece as usize {
            return false;
        }
        if m.capture == NO_PIECE as u8 {
            if !self.square_is_empty(m.to) {
                return false;
            }
        } else {
            if is_piece_white(m.capture as usize) == white {
                return false;
            }
            let capture_square: u8 = if m.flag == EN_PASSANT_FLAG {
                if white { m.to + 8 } else { m.to - 8 }
            } else {
                m.to
            };
            if self.get_piece(capture_square) != m.capture as usize || capture_square == m.from {
                return false;
            }
            if m.flag == EN_PASSANT_FLAG && (!self.square_is_empty(m.to) || capture_square == m.to) {
                return false;
            }
        }
        if promotable_contains(m.flag) && get_piece_type(m.piece as usize) != PAWN {
            return false;
        }
        if m.flag == SHORT_CASTLE_FLAG || m.flag == LONG_CASTLE_FLAG {
            if m.piece != WHITE_KING as u8 && m.piece != BLACK_KING as u8 {
                return false;
            }
            if m.capture != NO_PIECE as u8 {
                return false;
            }
            let short = m.flag == SHORT_CASTLE_FLAG;
            let rook_from: u8 = if white { if short { 63 } else { 56 } } else { if short { 7 } else { 0 } };
            let rook_to: u8 = if white { if short { 61 } else { 59 } } else { if short { 5 } else { 3 } };
            let rook = build_piece(white, ROOK);
            if self.get_piece(rook_from) != rook || !self.square_is_empty(rook_to) {
                return false;
            }
            if rook_from == m.from || rook_from == m.to || rook_to == m.from || rook_to == m.to {
                return false;
            }
        }
        proof {
            assert(color_of(m.piece as int) == if white { 1int } else { 0int });
        }
        true
    }

    /// Whether the moves of the piece on `s` can be generated (see `piece_movable`).
    pub fn piece_movable_now(&mut self, s: u8, only_captures: bool) -> (r: bool)
        requires
            old(self).wf(),
            s < 64,
        ensures
            final(self).wf(),
            final(self).same_but_caches(old(self)),
            r == piece_movable(old(self).view(), old(self).occupied_spec(), old(self).board_state.current.castling_rights, s as int, only_captures),
    {
        let piece = self.get_piece(s);
        let white = is_piece_white(piece);
        let piece_type = get_piece_type(piece);
        if piece_type == PAWN {
            return if white { s >= 8 } else { s < 56 };
        }
        if piece_type == KING && !only_captures && s < 2 {
            let long = self.can_long_castle(white);
            return !long;
        }
        true
    }

    /// Whether the moves of every piece of colour `white` can be generated (see `color_movable`).
    pub fn color_movable_now(&mut self, white: bool, only_captures: bool) -> (r: bool)
        requires
            old(self).wf(),
        ensures
            final(self).wf(),
            final(self).same_but_caches(old(self)),
            r == color_movable(old(self).view(), old(self).occupied_spec(), old(self).board_state.current.castling_rights, white, only_captures),
    {
        let ghost v = self.view();
        let ghost occ = self.occupied_spec();
        let ghost rights = self.board_state.current.castling_rights;
        let mut s: u8 = 0;
        while s < 64
            invariant
                s <= 64,
                self.wf(),
                self.same_but_caches(old(self)),
                v == self.view(),
                occ == self.occupied_spec(),
                rights == self.board_state.current.castling_rights,
                forall|t: int| 0 <= t < s && v[t] != 12 && spec_is_piece_white(v[t]) == white ==> #[trigger] piece_movable(v, occ, rights, t, only_captures),
            decreases 64 - s,
        {
            let piece = self.get_piece(s);
            if piece != NO_PIECE && is_piece_white(piece) == white {
                let ok = self.piece_movable_now(s, only_captures);
                if !ok {
                    return false;
                }
            }
            s = s + 1;
        }
        true
    }
}

impl Board {
    /// Whether the last move can be taken back on this placement (see
    /// `undo_fits`); `true` when no move was made. Callers test it before
    /// `undo_last_move`.
    pub fn last_move_undoable(&self) -> (r: bool)
        requires
            self.bitboards_wf(),
        ensures
            r == (self.moves@.len() > 0 ==> undo_fits(self.view(), self.moves@.last())),
    {
        proof {
            self.lemma_view_is_bits();
        }
        if self.moves.len() == 0 {
            return true;
        }
        let m = self.moves[self.moves.len() - 1];
        let white = is_piece_white(m.piece as usize);
        if m.piece >= 12 || m.from >= 64 || m.to >= 64 || m.from == m.to {
            return false;
        }
        let promotes = promotable_contains(m.flag);
        if promotes && !(m.flag <= 4 && get_piece_type(m.piece as usize) == PAWN) {
            return false;
        }
        let placed: usize = if promotes { build_piece(white, m.flag as usize) } else { m.piece as usize };
        if self.get_piece(m.to) != placed || !self.square_is_empty(m.from) {
            return false;
        }
        if m.capture != NO_PIECE as u8 {
            if m.capture >= 12 || is_piece_white(m.capture as usize) == white {
                return false;
            }
            if m.flag == EN_PASSANT_FLAG {
                if white && m.to + 8 >= 64 {
                    return false;
                }
                if !white && m.to < 8 {
                    return false;
                }
            }
            let capture_square: u8 = if m.flag == EN_PASSANT_FLAG {
                if white { m.to + 8 } else { m.to - 8 }
            } else {
                m.to
            };
            if capture_square == m.from {
                return false;
            }
            if capture_square != m.to && !self.square_is_empty(capture_square) {
                return false;
            }
        } else if m.flag == SHORT_CASTLE_FLAG || m.flag == LONG_CASTLE_FLAG {
            let short = m.flag == SHORT_CASTLE_FLAG;
            let rook_from: u8 = if white { if short { 63 } else { 56 } } else { if short { 7 } else { 0 } };
            let rook_to: u8 = if white { if short { 61 } else { 59 } } else { if short { 5 } else { 3 } };
            if self.get_piece(rook_to) != build_piece(white, ROOK) || !self.square_is_empty(rook_from) {
                return false;
            }
            if rook_from == m.from || rook_from == m.to || rook_to == m.from || rook_to == m.to {
                return false;
            }
        }
        proof {
            assert(color_of(m.piece as int) == if white { 1int } else { 0int });
        }
        true
    }
}

/// The generated moves only depend on which squares are occupied.
pub proof fn lemma_move_list_congruent(v: Seq<int>, o1: u64, o2: u64, last: MoveData, rights: u8, white: bool, only_captures: bool)
    requires
        crate::board::bits_agree(o1, o2),
    ensures
        color_move_list(v, o1, last, rights, white, only_captures) == color_move_list(v, o2, last, rights, white, only_captures),
{
    lemma_move_list_upto_congruent(v, o1, o2, last, rights, white, only_captures, 6);
}

proof fn lemma_move_list_upto_congruent(
    v: Seq<int>,
    o1: u64,
    o2: u64,
    last: MoveData,
    rights: u8,
    white: bool,
    only_captures: bool,
    n: int,
)
    requires
        crate::board::bits_agree(o1, o2),
    ensures
        color_move_list_upto(v, o1, last, rights, white, only_captures, n) == color_move_list_upto(v, o2, last, rights, white,
            only_captures, n),
    decreases n,
{
    if n > 0 {
        lemma_move_list_upto_congruent(v, o1, o2, last, rights, white, only_captures, n - 1);
        let piece = (if white { 6int } else { 0int }) + n - 1;
        crate::bits::lemma_squares_where_range(|t: int| v[t] == piece, 0);
        lemma_squares_move_list_congruent(v, o1, o2, last, rights, squares_where(|t: int| v[t] == piece), only_captures);
    }
}

proof fn lemma_squares_move_list_congruent(
    v: Seq<int>,
    o1: u64,
    o2: u64,
    last: MoveData,
    rights: u8,
    squares: Seq<int>,
    only_captures: bool,
)
    requires
        crate::board::bits_agree(o1, o2),
        forall|k: int| 0 <= k < squares.len() ==> 0 <= #[trigger] squares[k] < 64,
    ensures
        squares_move_list(v, o1, last, rights, squares, only_captures) == squares_move_list(v, o2, last, rights, squares,
            only_captures),
    decreases squares.len(),
{
    if squares.len() > 0 {
        lemma_squares_move_list_congruent(v, o1, o2, last, rights, squares.drop_last(), only_captures);
        lemma_piece_move_list_congruent(v, o1, o2, last, rights, squares.last(), only_captures);
    }
}

proof fn lemma_piece_move_list_congruent(v: Seq<int>, o1: u64, o2: u64, last: MoveData, rights: u8, s: int, only_captures: bool)
    requires
        crate::board::bits_agree(o1, o2),
        0 <= s < 64,
    ensures
        piece_move_list(v, o1, last, rights, s, only_captures) == piece_move_list(v, o2, last, rights, s, only_captures),
{
    let p1 = |j: int| step_target(v, o1, s, only_captures, j);
    let p2 = |j: int| step_target(v, o2, s, only_captures, j);
    assert forall|j: int| 0 <= j < 64 implies #[trigger] p1(j) == p2(j) by {
        crate::board::lemma_piece_attacks_congruent(v[s], s, o1, o2, j);
    }
    crate::bits::lemma_squares_where_ext(p1, p2, 0);
    let white = spec_is_piece_white(v[s]);
    crate::board::lemma_king_attacked_congruent(v, o1, o2, white);
    crate::board::lemma_attacked_congruent(v, o1, o2, opponent(white), if white { 61 } else { 5 });
    crate::board::lemma_attacked_congruent(v, o1, o2, opponent(white), if white { 62 } else { 6 });
    crate::board::lemma_attacked_congruent(v, o1, o2, opponent(white), if white { 58 } else { 2 });
    crate::board::lemma_attacked_congruent(v, o1, o2, opponent(white), if white { 59 } else { 3 });
    assert(castle_move_list(v, o1, rights, s) == castle_move_list(v, o2, rights, s));
}

} // verus!
