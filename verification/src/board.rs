//! The bitboard position: one bitboard per piece and per colour, the side to
//! move, the material count, the Zobrist key and an undo history.
use vstd::prelude::*;
use crate::bits::{lemma_bit_ops, lemma_single_bit, lemma_same_bits};
use crate::utils::{bit_set, pop_lsb};
use crate::pieces::{
    NO_PIECE, PIECE_COUNT, PAWN, KNIGHT, BISHOP, ROOK, QUEEN, KING, WHITE_PAWN, BLACK_PAWN,
    WHITE_ROOK, BLACK_ROOK, WHITE_KING, BLACK_KING, build_piece, is_piece_white, get_piece_type,
    spec_is_piece_white, spec_piece_type, spec_build_piece, is_promotable, promotable_contains,
};
use crate::move_data::{
    MoveData, null_move, spec_null_move, DOUBLE_PAWN_PUSH_FLAG, EN_PASSANT_FLAG, SHORT_CASTLE_FLAG,
    LONG_CASTLE_FLAG,
};
use crate::zobrist::hashable_move;
use crate::castling_rights::{
    WHITE_CASTLE_LONG, WHITE_CASTLE_SHORT, BLACK_CASTLE_SHORT, BLACK_CASTLE_LONG,
    ALL_WHITE_CASTLING_RIGHTS, ALL_BLACK_CASTLING_RIGHTS,
};
use crate::value_holder::{ValueHolder, holder_model, model_push, model_pop};
use crate::zobrist::Zobrist;
use crate::precalculated_move_data::{
    PrecalculatedMoveData, slider_attacks, slides_to, path_clear, ray_square, edge_distance,
    lemma_ray_square, is_square_table, lemma_or_bit, lemma_zero_bits,
};
use crate::bitboards::{knight_step, king_step, pawn_capture_step};
use crate::piece_square_tables::{BASE_WORTHS_OF_PIECE_TYPE, ROOK_WORTH};

verus! {

#[derive(Copy, Clone)]
pub struct BoardState {
    pub castling_rights: u8,
    pub fifty_move_counter: u8,
    /// Cached attack sets of black (0) and white (1); `None` until computed.
    pub attacked_squares: [Option<u64>; 2],
}

impl BoardState {
    pub fn new(castling_rights: u8, fifty_move_counter: u8) -> (r: Self)
        ensures
            r.castling_rights == castling_rights,
            r.fifty_move_counter == fifty_move_counter,
            r.attacked_squares@ == seq![None::<u64>, None::<u64>],
    {
        BoardState { castling_rights, fifty_move_counter, attacked_squares: [None, None] }
    }
}

pub struct Board {
    pub precalculated_move_data: PrecalculatedMoveData,
    pub piece_bitboards: [u64; 12],
    pub color_bitboards: [u64; 2],
    pub en_passant_file: usize,
    pub white_to_move: bool,
    pub total_material_without_pawns: [i32; 2],
    pub zobrist: Zobrist,
    pub moves: Vec<MoveData>,
    pub board_state: ValueHolder<BoardState>,
}

/// The move a position's history ends with, or the null move.
pub open spec fn last_move_of(moves: Seq<MoveData>) -> MoveData {
    if moves.len() == 0 { spec_null_move() } else { moves.last() }
}

/// The first piece, from `p` on, whose bitboard holds square `s`; 12 if none.
pub open spec fn first_piece_at(pbs: Seq<u64>, s: int, p: int) -> int
    decreases 12 - p,
{
    if p >= 12 || p < 0 {
        12
    } else if bit_set(pbs[p], s as u64) {
        p
    } else {
        first_piece_at(pbs, s, p + 1)
    }
}

/// The colour index of the side opposing `white`.
pub open spec fn opponent(white: bool) -> int {
    if white { 0 } else { 1 }
}

/// The colour index of a piece: 1 for white, 0 for black.
pub open spec fn color_of(piece: int) -> int {
    if spec_is_piece_white(piece) { 1 } else { 0 }
}

impl Board {
    /// The piece on each square (12 = empty), as the piece bitboards place them.
    pub open spec fn view(&self) -> Seq<int> {
        Seq::new(64, |s: int| first_piece_at(self.piece_bitboards@, s, 0))
    }

    /// The piece and colour bitboards describe one consistent placement.
    pub open spec fn bitboards_wf(&self) -> bool {
        &&& self.pieces_disjoint()
        &&& forall|c: int, s: int|
            0 <= c < 2 && 0 <= s < 64 ==> (#[trigger] bit_set(self.color_bitboards@[c], s as u64) <==> (
            self.view()[s] != 12 && color_of(self.view()[s]) == c))
    }

    /// No square is held by two pieces.
    pub open spec fn pieces_disjoint(&self) -> bool {
        forall|p: int, q: int, s: int|
            0 <= p < 12 && 0 <= q < 12 && p != q && 0 <= s < 64 ==> !(#[trigger] bit_set(self.piece_bitboards@[p], s as u64)
                && #[trigger] bit_set(self.piece_bitboards@[q], s as u64))
    }

    pub open spec fn occupied_spec(&self) -> u64 {
        self.color_bitboards@[0] | self.color_bitboards@[1]
    }
}

pub proof fn lemma_first_piece_at(pbs: Seq<u64>, s: int, p: int)
    requires
        0 <= p <= 12,
    ensures
        p <= first_piece_at(pbs, s, p) <= 12,
        first_piece_at(pbs, s, p) < 12 ==> bit_set(pbs[first_piece_at(pbs, s, p)], s as u64),
        forall|q: int| p <= q < first_piece_at(pbs, s, p) ==> !#[trigger] bit_set(pbs[q], s as u64),
    decreases 12 - p,
{
    if p < 12 && !bit_set(pbs[p], s as u64) {
        lemma_first_piece_at(pbs, s, p + 1);
    }
}

impl Board {
    /// With consistent bitboards, a piece's bitboard holds a square exactly when
    /// the square shows that piece.
    pub proof fn lemma_view_bits(&self, p: int, s: int)
        requires
            self.pieces_disjoint(),
            0 <= p < 12,
            0 <= s < 64,
        ensures
            bit_set(self.piece_bitboards@[p], s as u64) <==> self.view()[s] == p,
            0 <= self.view()[s] <= 12,
    {
        lemma_first_piece_at(self.piece_bitboards@, s, 0);
        let v = self.view()[s];
        if bit_set(self.piece_bitboards@[p], s as u64) && v != p {
            if v < 12 {
                assert(bit_set(self.piece_bitboards@[v], s as u64));
            }
        }
    }

    pub fn get_piece(&self, i: u8) -> (r: usize)
        requires
            i < 64,
        ensures
            r as int == self.view()[i as int],
            r <= 12,
    {
        proof {
            lemma_first_piece_at(self.piece_bitboards@, i as int, 0);
        }
        let mut piece: usize = 0;
        while piece < PIECE_COUNT
            invariant
                i < 64,
                piece <= 12,
                forall|q: int| 0 <= q < piece ==> !#[trigger] bit_set(self.piece_bitboards@[q], i as u64),
                first_piece_at(self.piece_bitboards@, i as int, 0) == first_piece_at(self.piece_bitboards@, i as int, piece as int),
            decreases 12 - piece,
        {
            let hit = self.piece_bitboards[piece] & (1u64 << (i as u64)) != 0;
            proof {
                let x = self.piece_bitboards@[piece as int];
                let ii = i as u64;
                lemma_single_bit(x, ii, ii);
            }
            if hit {
                return piece;
            }
            piece = piece + 1;
        }
        NO_PIECE
    }

    pub fn occupied_bitboard(&self) -> (r: u64)
        ensures
            r == self.occupied_spec(),
    {
        self.color_bitboards[0] | self.color_bitboards[1]
    }

    pub fn unoccupied_bitboard(&self) -> (r: u64)
        ensures
            r == !self.occupied_spec(),
    {
        !self.occupied_bitboard()
    }

    pub fn square_is_empty(&self, i: u8) -> (r: bool)
        requires
            i < 64,
            self.bitboards_wf(),
        ensures
            r == (self.view()[i as int] == 12),
    {
        let r = self.unoccupied_bitboard() & (1u64 << (i as u64)) != 0;
        proof {
            let a = self.color_bitboards@[0];
            let b = self.color_bitboards@[1];
            let ii = i as u64;
            lemma_single_bit(!(a | b), ii, ii);
            lemma_bit_ops(a | b, a | b, ii);
            lemma_bit_ops(a, b, ii);
            assert(bit_set(self.color_bitboards@[0], ii) <==> (self.view()[i as int] != 12 && color_of(self.view()[i as int]) == 0));
            assert(bit_set(self.color_bitboards@[1], ii) <==> (self.view()[i as int] != 12 && color_of(self.view()[i as int]) == 1));
        }
        r
    }

    pub fn get_last_move(&self) -> (r: MoveData)
        ensures
            r == if self.moves@.len() == 0 { spec_null_move() } else { self.moves@.last() },
    {
        if self.moves.len() == 0 {
            return null_move();
        }
        self.moves[self.moves.len() - 1]
    }

    /// +1 when white is to move, -1 when black is.
    pub fn perspective(&self) -> (r: i32)
        ensures
            r == if self.white_to_move { 1i32 } else { -1i32 },
    {
        if self.white_to_move { 1 } else { -1 }
    }

    /// Neither side has a pawn, and together they have less than a rook's worth of pieces.
    pub fn insufficient_checkmating_material(&self) -> (r: bool)
        ensures
            r == (self.total_material_without_pawns@[0] + self.total_material_without_pawns@[1] < ROOK_WORTH
                && self.piece_bitboards@[WHITE_PAWN as int] == 0 && self.piece_bitboards@[BLACK_PAWN as int] == 0),
    {
        let total = self.total_material_without_pawns[0] as i64 + self.total_material_without_pawns[1] as i64;
        total < ROOK_WORTH as i64 && self.piece_bitboards[WHITE_PAWN] == 0 && self.piece_bitboards[BLACK_PAWN] == 0
    }
}

/// The worth that a piece adds to the material count of colour `c`:
/// knights, bishops, rooks and queens of that colour count, pawns and kings do not.
pub open spec fn counted_worth(piece: int, c: int) -> int {
    if 0 <= piece < 12 && color_of(piece) == c {
        let t = spec_piece_type(piece);
        if t == 1 { 320 } else if t == 2 { 330 } else if t == 3 { 500 } else if t == 4 { 900 } else { 0 }
    } else {
        0
    }
}

/// The material (without pawns and kings) of colour `c` on the first `n` squares.
pub open spec fn material_upto(view: Seq<int>, c: int, n: int) -> int
    decreases n,
{
    if n <= 0 {
        0
    } else {
        material_upto(view, c, n - 1) + counted_worth(view[n - 1], c)
    }
}

pub open spec fn material_of(view: Seq<int>, c: int) -> int {
    material_upto(view, c, 64)
}

pub proof fn lemma_material_bounds(view: Seq<int>, c: int, n: int)
    requires
        0 <= n,
    ensures
        0 <= material_upto(view, c, n) <= 900 * n,
    decreases n,
{
    if n > 0 {
        lemma_material_bounds(view, c, n - 1);
    }
}

proof fn lemma_material_update(view: Seq<int>, c: int, n: int, s: int, p: int)
    requires
        0 <= s < view.len(),
        0 <= n <= view.len(),
    ensures
        material_upto(view.update(s, p), c, n) == material_upto(view, c, n) + if s < n {
            counted_worth(p, c) - counted_worth(view[s], c)
        } else {
            0
        },
    decreases n,
{
    if n > 0 {
        lemma_material_update(view, c, n - 1, s, p);
    }
}

proof fn lemma_toggle_bit(x: u64, t: u64, j: u64)
    requires
        t < 64,
        j < 64,
    ensures
        bit_set(x ^ (1u64 << t), j) <==> (bit_set(x, j) != (j == t)),
{
    lemma_bit_ops(x, 1u64 << t, j);
    lemma_single_bit(x, t, j);
}

impl Board {
    /// With consistent bitboards the view holds a piece or 12 on every square,
    /// and each piece bitboard is exactly the set of squares showing that piece.
    pub proof fn lemma_view_is_bits(&self)
        requires
            self.bitboards_wf(),
        ensures
            forall|s: int| 0 <= s < 64 ==> 0 <= #[trigger] self.view()[s] <= 12,
            forall|p: int, s: int| 0 <= p < 12 && 0 <= s < 64 ==> (#[trigger] bit_set(self.piece_bitboards@[p], s as u64) <==> self.view()[s] == p),
    {
        assert forall|p: int, s: int| 0 <= p < 12 && 0 <= s < 64 implies (#[trigger] bit_set(self.piece_bitboards@[p], s as u64) <==> self.view()[s] == p) by {
            self.lemma_view_is_bit(p, s);
        }
        assert forall|s: int| 0 <= s < 64 implies 0 <= #[trigger] self.view()[s] <= 12 by {
            self.lemma_view_is_bit(0, s);
        }
    }

    proof fn lemma_view_is_bit(&self, p: int, s: int)
        requires
            self.bitboards_wf(),
            0 <= p < 12,
            0 <= s < 64,
        ensures
            bit_set(self.piece_bitboards@[p], s as u64) <==> self.view()[s] == p,
            0 <= self.view()[s] <= 12,
    {
        self.lemma_view_bits(p, s);
    }

    /// Puts `piece` on the empty square `sq`, or takes it off when it stands there.
    pub(crate) fn toggle_piece(&mut self, piece: usize, sq: u8)
        requires
            old(self).bitboards_wf(),
            piece < 12,
            sq < 64,
            old(self).view()[sq as int] == piece || old(self).view()[sq as int] == 12,
        ensures
            final(self).bitboards_wf(),
            final(self).view() == old(self).view().update(sq as int, if old(self).view()[sq as int] == piece { 12 } else { piece as int }),
            final(self).precalculated_move_data == old(self).precalculated_move_data,
            final(self).en_passant_file == old(self).en_passant_file,
            final(self).white_to_move == old(self).white_to_move,
            final(self).total_material_without_pawns == old(self).total_material_without_pawns,
            final(self).zobrist == old(self).zobrist,
            final(self).moves == old(self).moves,
            final(self).board_state == old(self).board_state,
    {
        let ghost before = self.view();
        let ghost new_piece: int = if before[sq as int] == piece { 12 } else { piece as int };
        proof {
            self.lemma_view_is_bits();
        }
        let color = is_piece_white(piece) as usize;
        self.piece_bitboards[piece] = self.piece_bitboards[piece] ^ (1u64 << (sq as u64));
        self.color_bitboards[color] = self.color_bitboards[color] ^ (1u64 << (sq as u64));
        proof {
            assert(color as int == color_of(piece as int));
            let pbs = self.piece_bitboards@;
            let obs = old(self).piece_bitboards@;
            assert forall|q: int, s: int| 0 <= q < 12 && 0 <= s < 64 implies (#[trigger] bit_set(pbs[q], s as u64)
                <==> before.update(sq as int, new_piece)[s] == q) by {
                if q == piece {
                    lemma_toggle_bit(obs[q], sq as u64, s as u64);
                } else {
                    assert(pbs[q] == obs[q]);
                }
            }
            assert forall|p: int, q: int, s: int|
                0 <= p < 12 && 0 <= q < 12 && p != q && 0 <= s < 64 implies !(#[trigger] bit_set(pbs[p], s as u64)
                    && #[trigger] bit_set(pbs[q], s as u64)) by {
                assert(bit_set(pbs[p], s as u64) <==> before.update(sq as int, new_piece)[s] == p);
                assert(bit_set(pbs[q], s as u64) <==> before.update(sq as int, new_piece)[s] == q);
            }
            assert forall|s: int| 0 <= s < 64 implies #[trigger] self.view()[s] == before.update(sq as int, new_piece)[s] by {
                self.lemma_view_bits(0, s);
                let v = self.view()[s];
                let w = before.update(sq as int, new_piece)[s];
                if v < 12 {
                    self.lemma_view_bits(v, s);
                }
                if w < 12 {
                    self.lemma_view_bits(w, s);
                }
            }
            assert(self.view() =~= before.update(sq as int, new_piece));
            let cbs = self.color_bitboards@;
            let ocs = old(self).color_bitboards@;
            assert forall|c: int, s: int| 0 <= c < 2 && 0 <= s < 64 implies (#[trigger] bit_set(cbs[c], s as u64) <==> (
                self.view()[s] != 12 && color_of(self.view()[s]) == c)) by {
                if c == color {
                    lemma_toggle_bit(ocs[c], sq as u64, s as u64);
                } else {
                    assert(cbs[c] == ocs[c]);
                }
            }
        }
    }
}

/// Whether `piece` standing on `s` attacks square `j` when the squares in
/// `occupancies` are occupied.
pub open spec fn piece_attacks(piece: int, s: int, occupancies: u64, j: int) -> bool {
    let t = spec_piece_type(piece);
    if t == 0 {
        pawn_capture_step(color_of(piece), s as u64, j as u64)
    } else if t == 1 {
        knight_step(s as u64, j as u64)
    } else if t == 2 {
        slider_attacks(s, 4, 8, occupancies, j)
    } else if t == 3 {
        slider_attacks(s, 0, 4, occupancies, j)
    } else if t == 4 {
        slider_attacks(s, 4, 8, occupancies, j) || slider_attacks(s, 0, 4, occupancies, j)
    } else {
        king_step(s as u64, j as u64)
    }
}

/// Square `j` is attacked by some piece of colour `color` in `view`.
pub open spec fn attacked_by(view: Seq<int>, occupancies: u64, color: int, j: int) -> bool {
    exists|s: int|
        0 <= s < 64 && 0 <= view[s] < 12 && color_of(view[s]) == color && #[trigger] piece_attacks(
            view[s],
            s,
            occupancies,
            j,
        )
}

/// The attacks of the pieces of `color` on the squares already visited: all
/// pieces of a type below `t`, and the pieces of type `t` no longer in `left`.
pub open spec fn attacks_done(view: Seq<int>, occupancies: u64, color: int, t: int, left: u64, j: int) -> bool {
    exists|s: int|
        0 <= s < 64 && 0 <= view[s] < 12 && color_of(view[s]) == color && (spec_piece_type(view[s]) < t || (
        spec_piece_type(view[s]) == t && !bit_set(left, s as u64))) && #[trigger] piece_attacks(
            view[s],
            s,
            occupancies,
            j,
        )
}

/// The attacks of the pieces of `color` whose type is below `t`.
pub open spec fn attacks_below(view: Seq<int>, occupancies: u64, color: int, t: int, j: int) -> bool {
    exists|s: int|
        0 <= s < 64 && 0 <= view[s] < 12 && color_of(view[s]) == color && spec_piece_type(view[s]) < t
            && #[trigger] piece_attacks(view[s], s, occupancies, j)
}

pub proof fn lemma_and_nonzero(x: u64, y: u64)
    ensures
        (x & y != 0) <==> exists|j: u64| j < 64 && #[trigger] bit_set(x, j) && bit_set(y, j),
{
    if x & y != 0 {
        let z = x & y;
        vstd::std_specs::bits::axiom_u64_trailing_zeros(z);
        let j = vstd::std_specs::bits::u64_trailing_zeros(z) as u64;
        assert(j < 64);
        assert(bit_set(z, j));
        lemma_bit_ops(x, y, j);
        assert(bit_set(x, j) && bit_set(y, j));
    }
    if exists|j: u64| j < 64 && #[trigger] bit_set(x, j) && bit_set(y, j) {
        let j = choose|j: u64| j < 64 && #[trigger] bit_set(x, j) && bit_set(y, j);
        lemma_bit_ops(x, y, j);
        lemma_bit_ops(x & y, x & y, j);
    }
}

impl Board {
    /// Every cached attack set is the true attack set of its colour.
    pub open spec fn attack_cache_valid(&self) -> bool {
        forall|c: int| 0 <= c < 2 ==> match #[trigger] self.board_state.current.attacked_squares@[c] {
            Some(a) => forall|j: int| 0 <= j < 64 ==> (#[trigger] bit_set(a, j as u64) <==> attacked_by(
                self.view(),
                self.occupied_spec(),
                c,
                j,
            )),
            None => true,
        }
    }

    pub(crate) fn calculate_bishop_attack_bitboard(&self, piece_index: usize) -> (r: u64)
        requires
            self.precalculated_move_data.wf(),
            piece_index < 64,
        ensures
            forall|j: int| 0 <= j < 64 ==> (#[trigger] bit_set(r, j as u64) <==> slider_attacks(piece_index as int, 4, 8, self.occupied_spec(), j)),
    {
        let occupied = self.occupied_bitboard();
        self.precalculated_move_data.generate_sliding_moves_bitboard(piece_index, 4, 8, occupied)
    }

    pub(crate) fn calculate_rook_attack_bitboard(&self, piece_index: usize) -> (r: u64)
        requires
            self.precalculated_move_data.wf(),
            piece_index < 64,
        ensures
            forall|j: int| 0 <= j < 64 ==> (#[trigger] bit_set(r, j as u64) <==> slider_attacks(piece_index as int, 0, 4, self.occupied_spec(), j)),
    {
        let occupied = self.occupied_bitboard();
        self.precalculated_move_data.generate_sliding_moves_bitboard(piece_index, 0, 4, occupied)
    }

    pub(crate) fn calculate_queen_attack_bitboard(&self, piece_index: usize) -> (r: u64)
        requires
            self.precalculated_move_data.wf(),
            piece_index < 64,
        ensures
            forall|j: int| 0 <= j < 64 ==> (#[trigger] bit_set(r, j as u64) <==> (slider_attacks(piece_index as int, 4, 8, self.occupied_spec(), j)
                || slider_attacks(piece_index as int, 0, 4, self.occupied_spec(), j))),
    {
        let b = self.calculate_bishop_attack_bitboard(piece_index);
        let r = self.calculate_rook_attack_bitboard(piece_index);
        proof {
            assert forall|j: int| 0 <= j < 64 implies (#[trigger] bit_set(b | r, j as u64) <==> (bit_set(b, j as u64) || bit_set(r, j as u64))) by {
                let jj = j as u64;
                lemma_bit_ops(b, r, jj);
            }
        }
        b | r
    }

    /// The attack set of one piece of type `piece_type` and colour `color` on `piece_index`.
    pub(crate) fn attacks_of_piece(&self, piece_type: usize, color: usize, piece_index: usize) -> (r: u64)
        requires
            self.precalculated_move_data.wf(),
            piece_index < 64,
            piece_type < 6,
            color < 2,
        ensures
            forall|j: int| 0 <= j < 64 ==> (#[trigger] bit_set(r, j as u64) <==> piece_attacks(
                spec_build_piece(color == 1, piece_type as int),
                piece_index as int,
                self.occupied_spec(),
                j,
            )),
    {
        let pmd = &self.precalculated_move_data;
        proof {
            let piece = spec_build_piece(color == 1, piece_type as int);
            assert(spec_piece_type(piece) == piece_type);
            assert(color_of(piece) == color);
            let i = piece_index as int;
            assert forall|j: int| 0 <= j < 64 implies (#[trigger] bit_set(pmd.knight_attacks@[i], j as u64) <==> knight_step(i as u64, j as u64)) by {
                assert(bit_set(pmd.knight_attacks@[i], j as u64) <==> (|i: int, j: int| knight_step(i as u64, j as u64))(i, j));
            }
            assert forall|j: int| 0 <= j < 64 implies (#[trigger] bit_set(pmd.king_attacks@[i], j as u64) <==> king_step(i as u64, j as u64)) by {
                assert(bit_set(pmd.king_attacks@[i], j as u64) <==> (|i: int, j: int| king_step(i as u64, j as u64))(i, j));
            }
            assert forall|j: int| 0 <= j < 64 implies (#[trigger] bit_set(pmd.pawn_attacks@[0]@[i], j as u64) <==> pawn_capture_step(0, i as u64, j as u64)) by {
                assert(bit_set(pmd.pawn_attacks@[0]@[i], j as u64) <==> (|i: int, j: int| pawn_capture_step(0, i as u64, j as u64))(i, j));
            }
            assert forall|j: int| 0 <= j < 64 implies (#[trigger] bit_set(pmd.pawn_attacks@[1]@[i], j as u64) <==> pawn_capture_step(1, i as u64, j as u64)) by {
                assert(bit_set(pmd.pawn_attacks@[1]@[i], j as u64) <==> (|i: int, j: int| pawn_capture_step(1, i as u64, j as u64))(i, j));
            }
        }
        match piece_type {
            0 => pmd.pawn_attacks[color][piece_index],
            1 => pmd.knight_attacks[piece_index],
            2 => self.calculate_bishop_attack_bitboard(piece_index),
            3 => self.calculate_rook_attack_bitboard(piece_index),
            4 => self.calculate_queen_attack_bitboard(piece_index),
            _ => pmd.king_attacks[piece_index],
        }
    }

    /// The set of squares attacked by the pieces of `color`.
    pub fn compute_attacked_squares(&self, color: usize) -> (r: u64)
        requires
            self.precalculated_move_data.wf(),
            self.bitboards_wf(),
            color < 2,
        ensures
            forall|j: int| 0 <= j < 64 ==> (#[trigger] bit_set(r, j as u64) <==> attacked_by(self.view(), self.occupied_spec(), color as int, j)),
    {
        proof {
            self.lemma_view_is_bits();
            lemma_zero_bits();
        }
        let ghost view = self.view();
        let ghost occ = self.occupied_spec();
        let mut attacked: u64 = 0;
        let mut piece_type: usize = 0;
        while piece_type < 6
            invariant
                piece_type <= 6,
                color < 2,
                self.precalculated_move_data.wf(),
                self.bitboards_wf(),
                view == self.view(),
                occ == self.occupied_spec(),
                forall|s: int| 0 <= s < 64 ==> 0 <= #[trigger] view[s] <= 12,
                forall|p: int, s: int| 0 <= p < 12 && 0 <= s < 64 ==> (#[trigger] bit_set(self.piece_bitboards@[p], s as u64) <==> view[s] == p),
                forall|j: int| 0 <= j < 64 ==> (#[trigger] bit_set(attacked, j as u64) <==> attacks_below(view, occ, color as int, piece_type as int, j)),
            decreases 6 - piece_type,
        {
            let piece = build_piece(color == 1, piece_type);
            let mut bb = self.piece_bitboards[piece];
            proof {
                assert forall|j: int| 0 <= j < 64 implies (#[trigger] bit_set(attacked, j as u64) <==> attacks_done(view, occ, color as int, piece_type as int, bb, j)) by {
                    if attacks_below(view, occ, color as int, piece_type as int, j) {
                        let s = choose|s: int| 0 <= s < 64 && 0 <= view[s] < 12 && color_of(view[s]) == color && spec_piece_type(view[s]) < piece_type
                            && #[trigger] piece_attacks(view[s], s, occ, j);
                        assert(attacks_done(view, occ, color as int, piece_type as int, bb, j));
                    }
                    if attacks_done(view, occ, color as int, piece_type as int, bb, j) {
                        let s = choose|s: int| 0 <= s < 64 && 0 <= view[s] < 12 && color_of(view[s]) == color && (spec_piece_type(view[s]) < piece_type || (
                            spec_piece_type(view[s]) == piece_type && !bit_set(bb, s as u64))) && #[trigger] piece_attacks(view[s], s, occ, j);
                        if spec_piece_type(view[s]) == piece_type {
                            assert(view[s] == piece);
                            assert(bit_set(self.piece_bitboards@[piece as int], s as u64));
                            assert(false);
                        }
                        assert(attacks_below(view, occ, color as int, piece_type as int, j));
                    }
                }
            }
            while bb != 0
                invariant
                    piece_type < 6,
                    color < 2,
                    piece as int == spec_build_piece(color == 1, piece_type as int),
                    self.precalculated_move_data.wf(),
                    self.bitboards_wf(),
                    view == self.view(),
                    occ == self.occupied_spec(),
                    forall|s: int| 0 <= s < 64 ==> 0 <= #[trigger] view[s] <= 12,
                    forall|p: int, s: int| 0 <= p < 12 && 0 <= s < 64 ==> (#[trigger] bit_set(self.piece_bitboards@[p], s as u64) <==> view[s] == p),
                    forall|s: int| 0 <= s < 64 && #[trigger] bit_set(bb, s as u64) ==> view[s] == piece,
                    forall|j: int| 0 <= j < 64 ==> (#[trigger] bit_set(attacked, j as u64) <==> attacks_done(view, occ, color as int, piece_type as int, bb, j)),
                decreases bb,
            {
                let ghost before = bb;
                let idx = pop_lsb(&mut bb);
                let a = self.attacks_of_piece(piece_type, color, idx as usize);
                proof {
                    let ii = idx as u64;
                    assert forall|s: int| 0 <= s < 64 implies (#[trigger] bit_set(bb, s as u64) <==> (bit_set(before, s as u64) && s != idx)) by {
                        assert(bit_set(bb, s as u64) == (bit_set(before, s as u64) && s as u64 != ii));
                    }
                    assert(view[idx as int] == piece);
                    assert forall|j: int| 0 <= j < 64 implies (#[trigger] bit_set(attacked | a, j as u64) <==> attacks_done(view, occ, color as int, piece_type as int, bb, j)) by {
                        let jj = j as u64;
                        lemma_bit_ops(attacked, a, jj);
                        if attacks_done(view, occ, color as int, piece_type as int, bb, j) {
                            let s = choose|s: int| 0 <= s < 64 && 0 <= view[s] < 12 && color_of(view[s]) == color && (spec_piece_type(view[s]) < piece_type || (
                                spec_piece_type(view[s]) == piece_type && !bit_set(bb, s as u64))) && #[trigger] piece_attacks(view[s], s, occ, j);
                            if s != idx {
                                assert(attacks_done(view, occ, color as int, piece_type as int, before, j));
                            }
                        }
                        if attacks_done(view, occ, color as int, piece_type as int, before, j) {
                            let s = choose|s: int| 0 <= s < 64 && 0 <= view[s] < 12 && color_of(view[s]) == color && (spec_piece_type(view[s]) < piece_type || (
                                spec_piece_type(view[s]) == piece_type && !bit_set(before, s as u64))) && #[trigger] piece_attacks(view[s], s, occ, j);
                            assert(attacks_done(view, occ, color as int, piece_type as int, bb, j));
                        }
                        if bit_set(a, jj) {
                            assert(piece_attacks(view[idx as int], idx as int, occ, j));
                            assert(attacks_done(view, occ, color as int, piece_type as int, bb, j));
                        }
                    }
                }
                attacked = attacked | a;
            }
            proof {
                assert forall|j: int| 0 <= j < 64 implies (#[trigger] bit_set(attacked, j as u64) <==> attacks_below(view, occ, color as int, piece_type + 1, j)) by {
                    if attacks_done(view, occ, color as int, piece_type as int, bb, j) {
                        let s = choose|s: int| 0 <= s < 64 && 0 <= view[s] < 12 && color_of(view[s]) == color && (spec_piece_type(view[s]) < piece_type || (
                            spec_piece_type(view[s]) == piece_type && !bit_set(bb, s as u64))) && #[trigger] piece_attacks(view[s], s, occ, j);
                        assert(attacks_below(view, occ, color as int, piece_type + 1, j));
                    }
                    if attacks_below(view, occ, color as int, piece_type + 1, j) {
                        let s = choose|s: int| 0 <= s < 64 && 0 <= view[s] < 12 && color_of(view[s]) == color && spec_piece_type(view[s]) < piece_type + 1
                            && #[trigger] piece_attacks(view[s], s, occ, j);
                        lemma_zero_bits();
                        assert(!bit_set(bb, s as u64));
                        assert(attacks_done(view, occ, color as int, piece_type as int, bb, j));
                    }
                }
            }
            piece_type = piece_type + 1;
        }
        proof {
            assert forall|j: int| 0 <= j < 64 implies (#[trigger] bit_set(attacked, j as u64) <==> attacked_by(view, occ, color as int, j)) by {
                if attacked_by(view, occ, color as int, j) {
                    let s = choose|s: int| 0 <= s < 64 && 0 <= view[s] < 12 && color_of(view[s]) == color && #[trigger] piece_attacks(view[s], s, occ, j);
                    assert(spec_piece_type(view[s]) < 6);
                    assert(attacks_below(view, occ, color as int, 6, j));
                }
            }
        }
        attacked
    }
}

impl Board {
    /// The position is consistent: tables, bitboards, material count, undo
    /// histories and attack caches all agree with the pieces on the board.
    pub open spec fn wf(&self) -> bool {
        &&& self.precalculated_move_data.wf()
        &&& self.bitboards_wf()
        &&& self.total_material_without_pawns@[0] == material_of(self.view(), 0)
        &&& self.total_material_without_pawns@[1] == material_of(self.view(), 1)
        &&& self.zobrist.wf()
        &&& self.board_state.wf()
        &&& self.board_state.index as int == self.moves@.len()
        &&& self.zobrist.key.index as int == self.moves@.len()
        &&& self.board_state.index < self.board_state.history@.len()
        &&& self.board_state.history@[self.board_state.index as int].castling_rights == self.board_state.current.castling_rights
        &&& self.board_state.history@[self.board_state.index as int].fifty_move_counter == self.board_state.current.fifty_move_counter
        &&& self.zobrist.key.index < self.zobrist.key.history@.len()
        &&& self.zobrist.key.history@[self.zobrist.key.index as int] == self.zobrist.key.current
        &&& self.board_state.current.castling_rights < 16
        &&& forall|k: int| 0 <= k <= self.board_state.index ==> (#[trigger] self.board_state.history@[k]).castling_rights < 16
        &&& self.attack_cache_valid()
    }

    /// Everything but the attack caches is as in `other`.
    pub open spec fn same_but_caches(&self, other: &Board) -> bool {
        &&& self.precalculated_move_data == other.precalculated_move_data
        &&& self.piece_bitboards == other.piece_bitboards
        &&& self.color_bitboards == other.color_bitboards
        &&& self.en_passant_file == other.en_passant_file
        &&& self.white_to_move == other.white_to_move
        &&& self.total_material_without_pawns == other.total_material_without_pawns
        &&& self.zobrist == other.zobrist
        &&& self.moves == other.moves
        &&& self.board_state.index == other.board_state.index
        &&& self.board_state.history == other.board_state.history
        &&& self.board_state.current.castling_rights == other.board_state.current.castling_rights
        &&& self.board_state.current.fifty_move_counter == other.board_state.current.fifty_move_counter
    }

    /// Consistent bitboards with the same placement have the same colour bitboards.
    pub proof fn lemma_same_color_bitboards(&self, other: &Board)
        requires
            self.bitboards_wf(),
            other.bitboards_wf(),
            self.view() == other.view(),
        ensures
            self.color_bitboards == other.color_bitboards,
            self.occupied_spec() == other.occupied_spec(),
    {
        assert forall|c: int| 0 <= c < 2 implies #[trigger] self.color_bitboards@[c] == other.color_bitboards@[c] by {
            assert forall|j: u64| j < 64 implies (#[trigger] bit_set(self.color_bitboards@[c], j) <==> bit_set(other.color_bitboards@[c], j)) by {
                assert(bit_set(self.color_bitboards@[c], (j as int) as u64) == bit_set(other.color_bitboards@[c], (j as int) as u64));
            }
            lemma_same_bits(self.color_bitboards@[c], other.color_bitboards@[c]);
        }
        assert(self.color_bitboards@ =~= other.color_bitboards@);
    }

    /// Refreshing the attack caches keeps the position consistent.
    pub proof fn lemma_wf_same_but_caches(&self, before: &Board)
        requires
            before.wf(),
            self.same_but_caches(before),
            self.attack_cache_valid(),
        ensures
            self.wf(),
    {
        assert(self.view() == before.view());
    }

    /// Makes sure the attack set of `color` is cached.
    pub fn calculate_attacked_squares_for_color(&mut self, color: usize)
        requires
            old(self).precalculated_move_data.wf(),
            old(self).bitboards_wf(),
            old(self).attack_cache_valid(),
            color < 2,
        ensures
            final(self).same_but_caches(old(self)),
            final(self).attack_cache_valid(),
            final(self).board_state.current.attacked_squares@[color as int] is Some,
            final(self).board_state.current.attacked_squares@[1 - color] == old(self).board_state.current.attacked_squares@[1 - color],
    {
        if self.board_state.current.attacked_squares[color].is_some() {
            return;
        }
        let attacked = self.compute_attacked_squares(color);
        let mut cache = self.board_state.current.attacked_squares;
        cache[color] = Some(attacked);
        self.board_state.current.attacked_squares = cache;
        proof {
            assert forall|c: int| 0 <= c < 2 implies match #[trigger] self.board_state.current.attacked_squares@[c] {
                Some(a) => forall|j: int| 0 <= j < 64 ==> (#[trigger] bit_set(a, j as u64) <==> attacked_by(self.view(), self.occupied_spec(), c, j)),
                None => true,
            } by {
                if c != color {
                    assert(self.board_state.current.attacked_squares@[c] == old(self).board_state.current.attacked_squares@[c]);
                }
            }
        }
    }

    pub fn calculate_attacked_squares(&mut self)
        requires
            old(self).precalculated_move_data.wf(),
            old(self).bitboards_wf(),
            old(self).attack_cache_valid(),
        ensures
            final(self).same_but_caches(old(self)),
            final(self).attack_cache_valid(),
            final(self).board_state.current.attacked_squares@[0] is Some,
            final(self).board_state.current.attacked_squares@[1] is Some,
    {
        self.calculate_attacked_squares_for_color(0);
        self.calculate_attacked_squares_for_color(1);
    }

    /// The set of squares the pieces of `color` attack (cached after the first call).
    pub fn get_attacked_squares_for_color(&mut self, color: usize) -> (r: u64)
        requires
            old(self).precalculated_move_data.wf(),
            old(self).bitboards_wf(),
            old(self).attack_cache_valid(),
            color < 2,
        ensures
            final(self).same_but_caches(old(self)),
            final(self).attack_cache_valid(),
            forall|j: int| 0 <= j < 64 ==> (#[trigger] bit_set(r, j as u64) <==> attacked_by(old(self).view(), old(self).occupied_spec(), color as int, j)),
            final(self).board_state.current.attacked_squares@[color as int] == Some(r),
    {
        self.calculate_attacked_squares_for_color(color);
        match self.board_state.current.attacked_squares[color] {
            Some(a) => a,
            None => 0,
        }
    }

    /// Whether the king of the given colour stands on an attacked square.
    pub fn king_in_check(&mut self, king_is_white: bool) -> (r: bool)
        requires
            old(self).precalculated_move_data.wf(),
            old(self).bitboards_wf(),
            old(self).attack_cache_valid(),
        ensures
            final(self).same_but_caches(old(self)),
            final(self).attack_cache_valid(),
            r == exists|s: int| 0 <= s < 64 && old(self).view()[s] == spec_build_piece(king_is_white, KING as int)
                && #[trigger] attacked_by(old(self).view(), old(self).occupied_spec(), opponent(king_is_white), s),
            final(self).board_state.current.attacked_squares@[opponent(king_is_white)] is Some,
    {
        let attacked = self.get_attacked_squares_for_color((!king_is_white) as usize);
        let king = build_piece(king_is_white, KING);
        let kb = self.piece_bitboards[king];
        proof {
            lemma_and_nonzero(kb, attacked);
            old(self).lemma_view_is_bits();
            let other: int = if king_is_white { 0 } else { 1 };
            assert(((!king_is_white) as usize) as int == other);
            if exists|j: u64| j < 64 && #[trigger] bit_set(kb, j) && bit_set(attacked, j) {
                let j = choose|j: u64| j < 64 && #[trigger] bit_set(kb, j) && bit_set(attacked, j);
                assert(bit_set(old(self).piece_bitboards@[king as int], (j as int) as u64));
                assert(old(self).view()[j as int] == king);
                assert(attacked_by(old(self).view(), old(self).occupied_spec(), opponent(king_is_white), j as int));
            }
            if exists|s: int| 0 <= s < 64 && old(self).view()[s] == spec_build_piece(king_is_white, KING as int)
                && #[trigger] attacked_by(old(self).view(), old(self).occupied_spec(), other, s) {
                let s = choose|s: int| 0 <= s < 64 && old(self).view()[s] == spec_build_piece(king_is_white, KING as int)
                    && #[trigger] attacked_by(old(self).view(), old(self).occupied_spec(), other, s);
                assert(bit_set(old(self).piece_bitboards@[king as int], s as u64));
                assert(bit_set(kb, s as u64));
                assert(bit_set(attacked, s as u64));
            }
        }
        kb & attacked != 0
    }
}

/// The square of the piece a move captures: behind the destination for en passant.
pub open spec fn capture_square(m: MoveData) -> int {
    if m.flag == EN_PASSANT_FLAG {
        if spec_is_piece_white(m.piece as int) { m.to as int + 8 } else { m.to as int - 8 }
    } else {
        m.to as int
    }
}

/// The piece that ends up on the destination square.
pub open spec fn placed_piece(m: MoveData) -> int {
    if is_promotable(m.flag as int) {
        spec_build_piece(spec_is_piece_white(m.piece as int), m.flag as int)
    } else {
        m.piece as int
    }
}

pub open spec fn is_castle(m: MoveData) -> bool {
    m.flag == SHORT_CASTLE_FLAG || m.flag == LONG_CASTLE_FLAG
}

/// The rook's origin and destination when the move castles.
pub open spec fn rook_from(m: MoveData) -> int {
    if spec_is_piece_white(m.piece as int) {
        if m.flag == SHORT_CASTLE_FLAG { 63 } else { 56 }
    } else {
        if m.flag == SHORT_CASTLE_FLAG { 7 } else { 0 }
    }
}

pub open spec fn rook_to(m: MoveData) -> int {
    if spec_is_piece_white(m.piece as int) {
        if m.flag == SHORT_CASTLE_FLAG { 61 } else { 59 }
    } else {
        if m.flag == SHORT_CASTLE_FLAG { 5 } else { 3 }
    }
}

pub open spec fn own_rook(m: MoveData) -> int {
    spec_build_piece(spec_is_piece_white(m.piece as int), ROOK as int)
}

/// The placement after `m`: the captured piece leaves, the moving piece goes
/// from origin to destination (promoted if the flag says so), and when a king
/// castles its rook jumps over it.
pub open spec fn apply_move_view(v: Seq<int>, m: MoveData) -> Seq<int> {
    let v1 = if m.capture != NO_PIECE { v.update(capture_square(m), 12) } else { v };
    let v2 = v1.update(m.from as int, 12).update(m.to as int, placed_piece(m));
    if is_castle(m) && (m.piece == WHITE_KING || m.piece == BLACK_KING) {
        v2.update(rook_from(m), 12).update(rook_to(m), own_rook(m))
    } else {
        v2
    }
}

/// The placement before `m`, as `undo_last_move` restores it.
pub open spec fn unapply_move_view(v: Seq<int>, m: MoveData) -> Seq<int> {
    let v1 = if m.capture == NO_PIECE && is_castle(m) {
        v.update(rook_to(m), 12).update(rook_from(m), own_rook(m))
    } else {
        v
    };
    let v2 = v1.update(m.to as int, 12).update(m.from as int, m.piece as int);
    if m.capture != NO_PIECE { v2.update(capture_square(m), m.capture as int) } else { v2 }
}

/// A move that can be made on placement `v`: the moving piece stands on the
/// origin, the destination is free or holds the captured enemy piece (behind
/// it for en passant), promotions are made by pawns, and castling moves a king
/// with its rook on the corner and the rook's destination free.
pub open spec fn move_fits(v: Seq<int>, m: MoveData) -> bool {
    &&& v.len() == 64
    &&& hashable_move(m)
    &&& m.from != m.to
    &&& v[m.from as int] == m.piece
    &&& m.capture == NO_PIECE ==> v[m.to as int] == 12
    &&& m.capture != NO_PIECE ==> {
        &&& m.capture < 12
        &&& color_of(m.capture as int) != color_of(m.piece as int)
        &&& 0 <= capture_square(m) < 64
        &&& v[capture_square(m)] == m.capture
        &&& capture_square(m) != m.from
        &&& m.flag == EN_PASSANT_FLAG ==> (v[m.to as int] == 12 && capture_square(m) != m.to)
    }
    &&& is_promotable(m.flag as int) ==> spec_piece_type(m.piece as int) == PAWN
    &&& is_castle(m) ==> {
        &&& (m.piece == WHITE_KING || m.piece == BLACK_KING)
        &&& m.capture == NO_PIECE
        &&& v[rook_from(m)] == own_rook(m)
        &&& v[rook_to(m)] == 12
        &&& rook_from(m) != m.from && rook_from(m) != m.to
        &&& rook_to(m) != m.from && rook_to(m) != m.to
    }
}

/// The castling rights after `m`: a king move loses both rights of its side,
/// and a move from or to a corner loses the right of that corner.
pub open spec fn updated_castling_rights(cr: u8, m: MoveData) -> u8 {
    let a = if m.piece == WHITE_KING { cr & !ALL_WHITE_CASTLING_RIGHTS } else if m.piece == BLACK_KING {
        cr & !ALL_BLACK_CASTLING_RIGHTS
    } else {
        cr
    };
    let b = if m.from == 0 { a & !BLACK_CASTLE_LONG } else if m.from == 7 { a & !BLACK_CASTLE_SHORT } else if m.from == 56 {
        a & !WHITE_CASTLE_LONG
    } else if m.from == 63 {
        a & !WHITE_CASTLE_SHORT
    } else {
        a
    };
    if m.to == 0 { b & !BLACK_CASTLE_LONG } else if m.to == 7 { b & !BLACK_CASTLE_SHORT } else if m.to == 56 {
        b & !WHITE_CASTLE_LONG
    } else if m.to == 63 {
        b & !WHITE_CASTLE_SHORT
    } else {
        b
    }
}

proof fn lemma_and_keeps_bound(x: u8, m: u8)
    requires
        x < 16,
    ensures
        x & m < 16,
{
    assert(x & m <= x) by (bit_vector);
}

/// The castling rights after a move stay below 16.
pub proof fn lemma_rights_bound(cr: u8, m: MoveData)
    requires
        cr < 16,
    ensures
        updated_castling_rights(cr, m) < 16,
{
    lemma_and_keeps_bound(cr, !ALL_WHITE_CASTLING_RIGHTS);
    lemma_and_keeps_bound(cr, !ALL_BLACK_CASTLING_RIGHTS);
    let a = if m.piece == WHITE_KING { cr & !ALL_WHITE_CASTLING_RIGHTS } else if m.piece == BLACK_KING {
        cr & !ALL_BLACK_CASTLING_RIGHTS
    } else {
        cr
    };
    lemma_and_keeps_bound(a, !BLACK_CASTLE_LONG);
    lemma_and_keeps_bound(a, !BLACK_CASTLE_SHORT);
    lemma_and_keeps_bound(a, !WHITE_CASTLE_LONG);
    lemma_and_keeps_bound(a, !WHITE_CASTLE_SHORT);
    let b = if m.from == 0 { a & !BLACK_CASTLE_LONG } else if m.from == 7 { a & !BLACK_CASTLE_SHORT } else if m.from == 56 {
        a & !WHITE_CASTLE_LONG
    } else if m.from == 63 {
        a & !WHITE_CASTLE_SHORT
    } else {
        a
    };
    lemma_and_keeps_bound(b, !BLACK_CASTLE_LONG);
    lemma_and_keeps_bound(b, !BLACK_CASTLE_SHORT);
    lemma_and_keeps_bound(b, !WHITE_CASTLE_LONG);
    lemma_and_keeps_bound(b, !WHITE_CASTLE_SHORT);
}

/// The fifty-move counter after `m`: reset by captures and pawn moves.
pub open spec fn updated_fifty(f: u8, m: MoveData) -> int {
    if m.capture != NO_PIECE || spec_piece_type(m.piece as int) == PAWN { 0 } else { f + 1 }
}

/// Unmaking a move that fits the placement after making it gives back the placement.
pub proof fn lemma_unapply_apply(v: Seq<int>, m: MoveData)
    requires
        move_fits(v, m),
    ensures
        unapply_move_view(apply_move_view(v, m), m) =~= v,
{
    let w = apply_move_view(v, m);
    let u = unapply_move_view(w, m);
    assert forall|s: int| 0 <= s < 64 implies #[trigger] u[s] == v[s] by {
    }
}

/// The worth table agrees with the counted worth for every piece type but the
/// pawn, which is not counted.
pub proof fn lemma_base_worths()
    ensures
        forall|p: int, c: int| 0 <= p < 12 && color_of(p) == c && spec_piece_type(p) != PAWN ==> #[trigger] counted_worth(p, c)
            == BASE_WORTHS_OF_PIECE_TYPE@[spec_piece_type(p)],
        forall|p: int, c: int| 0 <= p < 12 && spec_piece_type(p) == PAWN ==> #[trigger] counted_worth(p, c) == 0,
        forall|p: int, c: int| color_of(p) != c ==> #[trigger] counted_worth(p, c) == 0,
        forall|p: int, c: int| !(0 <= p < 12) ==> #[trigger] counted_worth(p, c) == 0,
{
    assert(BASE_WORTHS_OF_PIECE_TYPE@ =~= seq![100i32, 320, 330, 500, 900, 0]);
}

/// What `undo_last_move` needs to take back `m` from placement `v`: the placed
/// piece on the destination, the origin free, the captured piece's square free
/// once the destination is cleared, and for castling the rook on its new square.
pub open spec fn undo_fits(v: Seq<int>, m: MoveData) -> bool {
    &&& v.len() == 64
    &&& m.piece < 12
    &&& m.from < 64
    &&& m.to < 64
    &&& m.from != m.to
    &&& is_promotable(m.flag as int) ==> (m.flag <= 4 && spec_piece_type(m.piece as int) == PAWN)
    &&& v[m.to as int] == placed_piece(m)
    &&& v[m.from as int] == 12
    &&& m.capture != NO_PIECE ==> {
        &&& m.capture < 12
        &&& color_of(m.capture as int) != color_of(m.piece as int)
        &&& 0 <= capture_square(m) < 64
        &&& capture_square(m) != m.from
        &&& (capture_square(m) != m.to ==> v[capture_square(m)] == 12)
        &&& (m.flag != EN_PASSANT_FLAG ==> capture_square(m) == m.to)
    }
    &&& (m.capture == NO_PIECE && is_castle(m)) ==> {
        &&& v[rook_to(m)] == own_rook(m)
        &&& v[rook_from(m)] == 12
        &&& rook_from(m) != m.from && rook_from(m) != m.to
        &&& rook_to(m) != m.from && rook_to(m) != m.to
        &&& rook_from(m) != rook_to(m)
    }
}

/// After making a move that fits, it can be taken back.
pub proof fn lemma_apply_undo_fits(v: Seq<int>, m: MoveData)
    requires
        move_fits(v, m),
    ensures
        undo_fits(apply_move_view(v, m), m),
{
}

pub proof fn lemma_material_step(v: Seq<int>, s: int, p: int, c: int)
    requires
        v.len() == 64,
        0 <= s < 64,
    ensures
        material_of(v.update(s, p), c) == material_of(v, c) + counted_worth(p, c) - counted_worth(v[s], c),
{
    lemma_material_update(v, c, 64, s, p);
}

impl Board {
    /// Moves the pieces of `data` on the bitboards and updates the material count.
    fn apply_placement(&mut self, data: MoveData)
        requires
            old(self).bitboards_wf(),
            move_fits(old(self).view(), data),
            old(self).total_material_without_pawns@[0] == material_of(old(self).view(), 0),
            old(self).total_material_without_pawns@[1] == material_of(old(self).view(), 1),
        ensures
            final(self).bitboards_wf(),
            final(self).view() == apply_move_view(old(self).view(), data),
            final(self).total_material_without_pawns@[0] == material_of(final(self).view(), 0),
            final(self).total_material_without_pawns@[1] == material_of(final(self).view(), 1),
            final(self).precalculated_move_data == old(self).precalculated_move_data,
            final(self).en_passant_file == old(self).en_passant_file,
            final(self).white_to_move == old(self).white_to_move,
            final(self).zobrist == old(self).zobrist,
            final(self).moves == old(self).moves,
            final(self).board_state == old(self).board_state,
    {
        let ghost v0 = self.view();
        proof {
            lemma_base_worths();
            self.lemma_view_is_bits();
        }
        let piece = data.piece as usize;
        let white = is_piece_white(piece);
        let color = white as usize;
        let other = (!white) as usize;
        if data.capture != NO_PIECE as u8 {
            let cap_type = get_piece_type(data.capture as usize);
            let cs: u8 = if data.flag == EN_PASSANT_FLAG {
                if white { data.to + 8 } else { data.to - 8 }
            } else {
                data.to
            };
            let ghost vb = self.view();
            proof {
                lemma_material_step(vb, cs as int, 12, 0);
                lemma_material_step(vb, cs as int, 12, 1);
                lemma_material_bounds(vb.update(cs as int, 12), other as int, 64);
            }
            if cap_type != PAWN {
                self.total_material_without_pawns[other] = self.total_material_without_pawns[other] - BASE_WORTHS_OF_PIECE_TYPE[cap_type];
            }
            self.toggle_piece(data.capture as usize, cs);
        }
        let ghost v1 = self.view();
        proof {
            lemma_material_step(v1, data.from as int, 12, 0);
            lemma_material_step(v1, data.from as int, 12, 1);
        }
        self.toggle_piece(piece, data.from);
        let ghost v2 = self.view();
        if promotable_contains(data.flag) {
            let promoted = build_piece(white, data.flag as usize);
            proof {
                lemma_material_step(v2, data.to as int, promoted as int, 0);
                lemma_material_step(v2, data.to as int, promoted as int, 1);
                lemma_material_bounds(v2.update(data.to as int, promoted as int), color as int, 64);
            }
            self.toggle_piece(promoted, data.to);
            self.total_material_without_pawns[color] = self.total_material_without_pawns[color] + BASE_WORTHS_OF_PIECE_TYPE[data.flag as usize];
        } else {
            proof {
                lemma_material_step(v2, data.to as int, piece as int, 0);
                lemma_material_step(v2, data.to as int, piece as int, 1);
            }
            self.toggle_piece(piece, data.to);
        }
        if (data.piece == WHITE_KING as u8 || data.piece == BLACK_KING as u8) && (data.flag == SHORT_CASTLE_FLAG || data.flag == LONG_CASTLE_FLAG) {
            let rook = build_piece(white, ROOK);
            let (rf, rt): (u8, u8) = if white {
                if data.flag == SHORT_CASTLE_FLAG { (63, 61) } else { (56, 59) }
            } else {
                if data.flag == SHORT_CASTLE_FLAG { (7, 5) } else { (0, 3) }
            };
            let ghost v3 = self.view();
            proof {
                lemma_material_step(v3, rf as int, 12, 0);
                lemma_material_step(v3, rf as int, 12, 1);
                lemma_material_step(v3.update(rf as int, 12), rt as int, rook as int, 0);
                lemma_material_step(v3.update(rf as int, 12), rt as int, rook as int, 1);
            }
            self.toggle_piece(rook, rf);
            self.toggle_piece(rook, rt);
        }
        proof {
            assert(self.view() =~= apply_move_view(v0, data));
        }
    }

    /// Takes the pieces of `data` back on the bitboards and updates the material count.
    fn unapply_placement(&mut self, data: MoveData)
        requires
            old(self).bitboards_wf(),
            undo_fits(old(self).view(), data),
            old(self).total_material_without_pawns@[0] == material_of(old(self).view(), 0),
            old(self).total_material_without_pawns@[1] == material_of(old(self).view(), 1),
        ensures
            final(self).bitboards_wf(),
            final(self).view() == unapply_move_view(old(self).view(), data),
            final(self).total_material_without_pawns@[0] == material_of(final(self).view(), 0),
            final(self).total_material_without_pawns@[1] == material_of(final(self).view(), 1),
            final(self).precalculated_move_data == old(self).precalculated_move_data,
            final(self).en_passant_file == old(self).en_passant_file,
            final(self).white_to_move == old(self).white_to_move,
            final(self).zobrist == old(self).zobrist,
            final(self).moves == old(self).moves,
            final(self).board_state == old(self).board_state,
    {
        let ghost v0 = self.view();
        proof {
            lemma_base_worths();
            self.lemma_view_is_bits();
        }
        let piece = data.piece as usize;
        let white = is_piece_white(piece);
        let color = white as usize;
        let other = (!white) as usize;
        if data.capture == NO_PIECE as u8 && (data.flag == SHORT_CASTLE_FLAG || data.flag == LONG_CASTLE_FLAG) {
            let rook = build_piece(white, ROOK);
            let (rf, rt): (u8, u8) = if white {
                if data.flag == SHORT_CASTLE_FLAG { (63, 61) } else { (56, 59) }
            } else {
                if data.flag == SHORT_CASTLE_FLAG { (7, 5) } else { (0, 3) }
            };
            let ghost v3 = self.view();
            proof {
                lemma_material_step(v3, rt as int, 12, 0);
                lemma_material_step(v3, rt as int, 12, 1);
                lemma_material_step(v3.update(rt as int, 12), rf as int, rook as int, 0);
                lemma_material_step(v3.update(rt as int, 12), rf as int, rook as int, 1);
            }
            self.toggle_piece(rook, rt);
            self.toggle_piece(rook, rf);
        }
        let ghost v1 = self.view();
        if promotable_contains(data.flag) {
            let promoted = build_piece(white, data.flag as usize);
            proof {
                lemma_material_step(v1, data.to as int, 12, 0);
                lemma_material_step(v1, data.to as int, 12, 1);
                lemma_material_bounds(v1.update(data.to as int, 12), color as int, 64);
            }
            self.toggle_piece(promoted, data.to);
            self.total_material_without_pawns[color] = self.total_material_without_pawns[color] - BASE_WORTHS_OF_PIECE_TYPE[data.flag as usize];
        } else {
            proof {
                lemma_material_step(v1, data.to as int, 12, 0);
                lemma_material_step(v1, data.to as int, 12, 1);
            }
            self.toggle_piece(piece, data.to);
        }
        let ghost v2 = self.view();
        proof {
            lemma_material_step(v2, data.from as int, piece as int, 0);
            lemma_material_step(v2, data.from as int, piece as int, 1);
        }
        self.toggle_piece(piece, data.from);
        if data.capture != NO_PIECE as u8 {
            let cap_type = get_piece_type(data.capture as usize);
            let cs: u8 = if data.flag == EN_PASSANT_FLAG {
                if white { data.to + 8 } else { data.to - 8 }
            } else {
                data.to
            };
            let ghost vb = self.view();
            proof {
                lemma_material_step(vb, cs as int, data.capture as int, 0);
                lemma_material_step(vb, cs as int, data.capture as int, 1);
                lemma_material_bounds(vb.update(cs as int, data.capture as int), other as int, 64);
            }
            if cap_type != PAWN {
                self.total_material_without_pawns[other] = self.total_material_without_pawns[other] + BASE_WORTHS_OF_PIECE_TYPE[cap_type];
            }
            self.toggle_piece(data.capture as usize, cs);
        }
        proof {
            assert(self.view() =~= unapply_move_view(v0, data));
        }
    }
}

/// The mover's king is attacked on placement `v` (with occupancy `occ`).
pub open spec fn king_attacked(v: Seq<int>, occ: u64, king_is_white: bool) -> bool {
    exists|s: int| 0 <= s < 64 && v[s] == spec_build_piece(king_is_white, KING as int)
        && #[trigger] attacked_by(v, occ, opponent(king_is_white), s)
}

/// A bitboard whose bits are exactly the occupied squares of placement `v`.
pub open spec fn occupancy_for(v: Seq<int>) -> u64 {
    choose|o: u64| same_occupancy(o, v)
}

pub open spec fn same_occupancy(o: u64, v: Seq<int>) -> bool {
    forall|j: int| 0 <= j < 64 ==> (#[trigger] bit_set(o, j as u64) <==> v[j] != 12)
}

pub open spec fn bits_agree(o1: u64, o2: u64) -> bool {
    forall|j: int| 0 <= j < 64 ==> (#[trigger] bit_set(o1, j as u64) <==> bit_set(o2, j as u64))
}

proof fn lemma_slides_congruent(i: int, d: int, o1: u64, o2: u64, j: int)
    requires
        0 <= i < 64,
        0 <= d < 8,
        bits_agree(o1, o2),
    ensures
        slides_to(i, d, o1, j) <==> slides_to(i, d, o2, j),
{
    assert forall|n: int| 1 <= n <= edge_distance(i, d) implies (path_clear(i, d, o1, n) <==> path_clear(i, d, o2, n)) by {
        assert forall|m: int| 1 <= m < n implies (bit_set(o1, ray_square(i, d, m) as u64) <==> bit_set(o2, ray_square(i, d, m) as u64)) by {
            lemma_ray_square(i, d, m);
            let q = ray_square(i, d, m);
            assert(bit_set(o1, q as u64) <==> bit_set(o2, q as u64));
        }
    }
    if slides_to(i, d, o1, j) {
        let n = choose|n: int| 1 <= n <= edge_distance(i, d) && j == #[trigger] ray_square(i, d, n) && path_clear(i, d, o1, n);
        assert(path_clear(i, d, o2, n));
    }
    if slides_to(i, d, o2, j) {
        let n = choose|n: int| 1 <= n <= edge_distance(i, d) && j == #[trigger] ray_square(i, d, n) && path_clear(i, d, o2, n);
        assert(path_clear(i, d, o1, n));
    }
}

pub proof fn lemma_slider_congruent(i: int, lo: int, hi: int, o1: u64, o2: u64, j: int)
    requires
        0 <= i < 64,
        0 <= lo <= hi <= 8,
        bits_agree(o1, o2),
    ensures
        slider_attacks(i, lo, hi, o1, j) <==> slider_attacks(i, lo, hi, o2, j),
{
    if slider_attacks(i, lo, hi, o1, j) {
        let d = choose|d: int| lo <= d < hi && #[trigger] slides_to(i, d, o1, j);
        lemma_slides_congruent(i, d, o1, o2, j);
    }
    if slider_attacks(i, lo, hi, o2, j) {
        let d = choose|d: int| lo <= d < hi && #[trigger] slides_to(i, d, o2, j);
        lemma_slides_congruent(i, d, o1, o2, j);
    }
}

/// What a piece attacks only depends on which squares are occupied.
pub proof fn lemma_piece_attacks_congruent(p: int, s: int, o1: u64, o2: u64, j: int)
    requires
        0 <= s < 64,
        bits_agree(o1, o2),
    ensures
        piece_attacks(p, s, o1, j) <==> piece_attacks(p, s, o2, j),
{
    lemma_slider_congruent(s, 4, 8, o1, o2, j);
    lemma_slider_congruent(s, 0, 4, o1, o2, j);
}

/// Attacks only depend on which squares are occupied.
pub proof fn lemma_attacked_congruent(v: Seq<int>, o1: u64, o2: u64, c: int, j: int)
    requires
        bits_agree(o1, o2),
    ensures
        attacked_by(v, o1, c, j) <==> attacked_by(v, o2, c, j),
{
    if attacked_by(v, o1, c, j) {
        let s = choose|s: int| 0 <= s < 64 && 0 <= v[s] < 12 && color_of(v[s]) == c && #[trigger] piece_attacks(v[s], s, o1, j);
        lemma_slider_congruent(s, 4, 8, o1, o2, j);
        lemma_slider_congruent(s, 0, 4, o1, o2, j);
        assert(piece_attacks(v[s], s, o2, j));
    }
    if attacked_by(v, o2, c, j) {
        let s = choose|s: int| 0 <= s < 64 && 0 <= v[s] < 12 && color_of(v[s]) == c && #[trigger] piece_attacks(v[s], s, o2, j);
        lemma_slider_congruent(s, 4, 8, o1, o2, j);
        lemma_slider_congruent(s, 0, 4, o1, o2, j);
        assert(piece_attacks(v[s], s, o1, j));
    }
}

pub proof fn lemma_king_attacked_congruent(v: Seq<int>, o1: u64, o2: u64, white: bool)
    requires
        bits_agree(o1, o2),
    ensures
        king_attacked(v, o1, white) <==> king_attacked(v, o2, white),
{
    if king_attacked(v, o1, white) {
        let s = choose|s: int| 0 <= s < 64 && v[s] == spec_build_piece(white, KING as int)
            && #[trigger] attacked_by(v, o1, opponent(white), s);
        lemma_attacked_congruent(v, o1, o2, opponent(white), s);
    }
    if king_attacked(v, o2, white) {
        let s = choose|s: int| 0 <= s < 64 && v[s] == spec_build_piece(white, KING as int)
            && #[trigger] attacked_by(v, o2, opponent(white), s);
        lemma_attacked_congruent(v, o1, o2, opponent(white), s);
    }
}

impl Board {
    /// The occupancy bitboard holds exactly the occupied squares.
    pub proof fn lemma_occupancy(&self)
        requires
            self.bitboards_wf(),
        ensures
            same_occupancy(self.occupied_spec(), self.view()),
            same_occupancy(occupancy_for(self.view()), self.view()),
            bits_agree(self.occupied_spec(), occupancy_for(self.view())),
    {
        self.lemma_view_is_bits();
        assert forall|j: int| 0 <= j < 64 implies (#[trigger] bit_set(self.occupied_spec(), j as u64) <==> self.view()[j] != 12) by {
            let a = self.color_bitboards@[0];
            let b = self.color_bitboards@[1];
            let jj = j as u64;
            lemma_bit_ops(a, b, jj);
            assert(bit_set(a, jj) <==> (self.view()[j] != 12 && color_of(self.view()[j]) == 0));
            assert(bit_set(b, jj) <==> (self.view()[j] != 12 && color_of(self.view()[j]) == 1));
        }
        assert(same_occupancy(self.occupied_spec(), self.view()));
        let o = occupancy_for(self.view());
        assert(same_occupancy(o, self.view()));
    }
}

impl Board {
    /// The placement, move list, side to move, castling rights, fifty-move
    /// counter, Zobrist key and the states recorded up to the current depth
    /// are those of `other`.
    pub open spec fn same_position(&self, other: &Board) -> bool {
        &&& self.view() == other.view()
        &&& self.occupied_spec() == other.occupied_spec()
        &&& self.moves@ == other.moves@
        &&& self.white_to_move == other.white_to_move
        &&& self.board_state.index == other.board_state.index
        &&& self.board_state.current.castling_rights == other.board_state.current.castling_rights
        &&& self.board_state.current.fifty_move_counter == other.board_state.current.fifty_move_counter
        &&& self.zobrist.key.current == other.zobrist.key.current
        &&& self.zobrist.key.index == other.zobrist.key.index
        &&& self.precalculated_move_data == other.precalculated_move_data
        &&& self.en_passant_file == other.en_passant_file
        &&& self.zobrist.same_tables(&other.zobrist)
        &&& forall|k: int| 0 <= k <= self.board_state.index ==> #[trigger] self.board_state.history@[k] == other.board_state.history@[k]
        &&& forall|k: int| 0 <= k <= self.zobrist.key.index ==> #[trigger] self.zobrist.key.history@[k] == other.zobrist.key.history@[k]
    }

    pub proof fn lemma_same_position_refl(&self)
        ensures
            self.same_position(self),
    {
    }

    /// A board whose caches alone changed is in the same position.
    pub proof fn lemma_same_position_of_caches(&self, other: &Board)
        requires
            self.same_but_caches(other),
        ensures
            self.same_position(other),
    {
        assert(self.view() == other.view());
    }

    /// Being in the same position carries over from `mid` to `self`, when
    /// `mid` is in the position of `b0` and `self` in that of `mid`.
    pub proof fn lemma_same_position_trans2(&self, mid: &Board, b0: &Board)
        requires
            self.same_position(mid),
            mid.same_position(b0),
        ensures
            self.same_position(b0),
    {
    }

    /// As `lemma_same_position_trans2`, with `self` as the middle board.
    pub proof fn lemma_same_position_trans(&self, b0: &Board, b2: &Board)
        requires
            self.same_position(b0),
            b2.same_position(self),
        ensures
            b2.same_position(b0),
    {
        b2.lemma_same_position_trans2(self, b0);
    }

    /// `self` is `before` with `data` made: the placement, the move list, the
    /// side to move, the castling rights, the fifty-move counter and the
    /// Zobrist key are updated, and the recorded states up to the old depth stay.
    pub open spec fn is_after_move(&self, before: &Board, data: MoveData) -> bool {
        &&& self.view() == apply_move_view(before.view(), data)
        &&& self.moves@ == before.moves@.push(data)
        &&& self.white_to_move == !before.white_to_move
        &&& self.board_state.index == before.board_state.index + 1
        &&& self.board_state.current.castling_rights == updated_castling_rights(before.board_state.current.castling_rights, data)
        &&& self.board_state.current.fifty_move_counter == updated_fifty(before.board_state.current.fifty_move_counter, data)
        &&& self.zobrist.key.current == before.zobrist.key.current ^ before.zobrist.move_delta(
            data,
            last_move_of(before.moves@),
            updated_castling_rights(before.board_state.current.castling_rights, data),
            before.board_state.current.castling_rights,
        )
        &&& self.zobrist.key.index == before.zobrist.key.index + 1
        &&& forall|k: int| 0 <= k <= before.zobrist.key.index ==> #[trigger] self.zobrist.key.history@[k] == before.zobrist.key.history@[k]
        &&& self.zobrist.same_tables(&before.zobrist)
        &&& self.precalculated_move_data == before.precalculated_move_data
        &&& self.en_passant_file == before.en_passant_file
        &&& forall|k: int| 0 <= k <= before.board_state.index ==> #[trigger] self.board_state.history@[k] == before.board_state.history@[k]
    }

    /// `self` is `before` with its last move taken back: the placement is
    /// restored, the move is dropped, the side to move switches back, and the
    /// state recorded one level up and the previous key become current again.
    pub open spec fn is_after_undo(&self, before: &Board) -> bool {
        &&& self.view() == unapply_move_view(before.view(), before.moves@.last())
        &&& self.moves@ == before.moves@.drop_last()
        &&& self.white_to_move == !before.white_to_move
        &&& self.board_state.index == before.board_state.index - 1
        &&& self.board_state.current.castling_rights == before.board_state.history@[before.board_state.index - 1].castling_rights
        &&& self.board_state.current.fifty_move_counter == before.board_state.history@[before.board_state.index - 1].fifty_move_counter
        &&& self.board_state.history@ == before.board_state.history@
        &&& holder_model(&self.zobrist.key) == model_pop(holder_model(&before.zobrist.key))
        &&& self.zobrist.same_tables(&before.zobrist)
        &&& self.zobrist.en_passant_file == before.zobrist.en_passant_file
        &&& self.precalculated_move_data == before.precalculated_move_data
        &&& self.en_passant_file == before.en_passant_file
    }
}

/// Making a move and then taking it back restores the placement, the move
/// list, the side to move, the castling rights, the fifty-move counter, the
/// undo depth, the Zobrist key and the states recorded up to that depth.
pub proof fn lemma_make_undo_restores(b0: &Board, data: MoveData, b1: &Board, b2: &Board)
    requires
        b0.wf(),
        b2.wf(),
        move_fits(b0.view(), data),
        b1.is_after_move(b0, data),
        b2.is_after_undo(b1),
    ensures
        b2.same_position(b0),
        b2.view() == b0.view(),
        b2.moves@ == b0.moves@,
        b2.white_to_move == b0.white_to_move,
        b2.board_state.index == b0.board_state.index,
        b2.board_state.current.castling_rights == b0.board_state.current.castling_rights,
        b2.board_state.current.fifty_move_counter == b0.board_state.current.fifty_move_counter,
        b2.zobrist.key.current == b0.zobrist.key.current,
        b2.zobrist.key.index == b0.zobrist.key.index,
{
    lemma_unapply_apply(b0.view(), data);
    assert(b2.moves@ =~= b0.moves@);
    assert(b1.board_state.history@[b0.board_state.index as int] == b0.board_state.history@[b0.board_state.index as int]);
    b2.lemma_same_color_bitboards(b0);
}

/// Making a move, going away and coming back to the position it made, and
/// then taking the move back restores the position from before the move.
pub proof fn lemma_make_return_undo_restores(b0: &Board, data: MoveData, b1: &Board, b1p: &Board, b2: &Board)
    requires
        b0.wf(),
        b1p.wf(),
        b2.wf(),
        move_fits(b0.view(), data),
        b1.is_after_move(b0, data),
        b1p.same_position(b1),
        b2.is_after_undo(b1p),
    ensures
        b2.same_position(b0),
{
    lemma_unapply_apply(b0.view(), data);
    assert(b2.moves@ =~= b0.moves@);
    assert(b1p.board_state.history@[b0.board_state.index as int] == b0.board_state.history@[b0.board_state.index as int]);
    assert(b1p.zobrist.key.history@[b0.zobrist.key.index as int] == b0.zobrist.key.history@[b0.zobrist.key.index as int]);
    b2.lemma_same_color_bitboards(b0);
}

impl Board {
    /// Takes back the last move; `false` when there is none.
    pub fn undo_last_move(&mut self) -> (r: bool)
        requires
            old(self).wf(),
            old(self).moves@.len() > 0 ==> undo_fits(old(self).view(), old(self).moves@.last()),
        ensures
            final(self).wf(),
            old(self).moves@.len() == 0 ==> !r && final(self).view() == old(self).view()
                && final(self).moves == old(self).moves && final(self).white_to_move == old(self).white_to_move
                && final(self).board_state == old(self).board_state && final(self).zobrist == old(self).zobrist
                && final(self).total_material_without_pawns == old(self).total_material_without_pawns,
            old(self).moves@.len() > 0 ==> r && final(self).is_after_undo(old(self)),
            final(self).precalculated_move_data == old(self).precalculated_move_data,
            final(self).en_passant_file == old(self).en_passant_file,
    {
        if self.moves.len() == 0 {
            return false;
        }
        let last_move = self.moves.pop().unwrap();
        self.unapply_placement(last_move);
        self.board_state.pop();
        // The restored state's attack caches may describe another placement; drop them.
        self.board_state.current.attacked_squares = [None, None];
        self.zobrist.key.pop();
        self.white_to_move = !self.white_to_move;
        true
    }

    /// Makes `data` and returns `true`, unless it leaves the mover's own king
    /// attacked: then the move is taken back and `false` is returned.
    pub fn make_move(&mut self, data: MoveData) -> (r: bool)
        requires
            old(self).wf(),
            move_fits(old(self).view(), data),
            old(self).moves@.len() + 1 < usize::MAX,
            old(self).board_state.current.fifty_move_counter < 255,
        ensures
            final(self).wf(),
            final(self).precalculated_move_data == old(self).precalculated_move_data,
            final(self).en_passant_file == old(self).en_passant_file,
            r == !king_attacked(
                apply_move_view(old(self).view(), data),
                occupancy_for(apply_move_view(old(self).view(), data)),
                old(self).white_to_move,
            ),
            r ==> final(self).is_after_move(old(self), data),
            !r ==> final(self).same_position(old(self)),
    {
        let ghost v0 = self.view();
        let ghost cr0 = self.board_state.current.castling_rights;
        let ghost f0 = self.board_state.current.fifty_move_counter;
        let ghost bs0 = holder_model(&self.board_state);
        let ghost key0 = holder_model(&self.zobrist.key);
        self.apply_placement(data);
        let mut cr = self.board_state.current.castling_rights;
        if data.piece == WHITE_KING as u8 {
            cr = cr & !ALL_WHITE_CASTLING_RIGHTS;
        } else if data.piece == BLACK_KING as u8 {
            cr = cr & !ALL_BLACK_CASTLING_RIGHTS;
        }
        if data.from == 0 {
            cr = cr & !BLACK_CASTLE_LONG;
        } else if data.from == 7 {
            cr = cr & !BLACK_CASTLE_SHORT;
        } else if data.from == 56 {
            cr = cr & !WHITE_CASTLE_LONG;
        } else if data.from == 63 {
            cr = cr & !WHITE_CASTLE_SHORT;
        }
        if data.to == 0 {
            cr = cr & !BLACK_CASTLE_LONG;
        } else if data.to == 7 {
            cr = cr & !BLACK_CASTLE_SHORT;
        } else if data.to == 56 {
            cr = cr & !WHITE_CASTLE_LONG;
        } else if data.to == 63 {
            cr = cr & !WHITE_CASTLE_SHORT;
        }
        proof {
            assert(cr == updated_castling_rights(cr0, data));
            lemma_rights_bound(cr0, data);
        }
        self.board_state.current.castling_rights = cr;
        if data.capture != NO_PIECE as u8 || get_piece_type(data.piece as usize) == PAWN {
            self.board_state.current.fifty_move_counter = 0;
        } else {
            self.board_state.current.fifty_move_counter = self.board_state.current.fifty_move_counter + 1;
        }
        self.board_state.current.attacked_squares = [None, None];
        self.board_state.push();
        let last_move = self.get_last_move();
        let previous_rights = self.board_state.history[self.board_state.index - 1].castling_rights;
        self.zobrist.make_move(data, last_move, self.board_state.current.castling_rights, previous_rights);
        self.moves.push(data);
        self.white_to_move = !self.white_to_move;
        proof {
            assert(self.board_state.history@[self.board_state.index as int] == self.board_state.current);
            assert forall|k: int| 0 <= k <= self.board_state.index implies (#[trigger] self.board_state.history@[k]).castling_rights < 16 by {
                if k < self.board_state.index {
                    assert(self.board_state.history@[k] == old(self).board_state.history@[k]);
                }
            }
            assert(self.attack_cache_valid());
            assert(self.view() == apply_move_view(v0, data));
            self.lemma_occupancy();
            lemma_king_attacked_congruent(self.view(), self.occupied_spec(), occupancy_for(self.view()), old(self).white_to_move);
        }
        if self.king_in_check(!self.white_to_move) {
            proof {
                lemma_apply_undo_fits(v0, data);
                assert(self.moves@.last() == data);
            }
            self.undo_last_move();
            proof {
                lemma_unapply_apply(v0, data);
                assert(self.moves@ =~= old(self).moves@);
                self.lemma_same_color_bitboards(old(self));
            }
            return false;
        }
        true
    }
}

} // verus!
