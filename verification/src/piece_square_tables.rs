//! Piece-square tables (from white's point of view, a8 first) and piece worths.
use vstd::prelude::*;

verus! {

pub const MIDDLEGAME_PAWN_TABLE: [i32; 64] = [
    0, 0, 0, 0, 0, 0, 0, 0,
    50, 50, 50, 50, 50, 50, 50, 50,
    10, 10, 20, 30, 30, 20, 10, 10,
    5, 5, 10, 25, 25, 10, 5, 5,
    0, 0, 10, 20, 20, 0, 0, 0,
    5, -20, 5, 0, 0, -20, -20, 5,
    10, 10, 10, -20, -20, 10, 10, 10,
    0, 0, 0, 0, 0, 0, 0, 0,
];

pub const ENDGAME_PAWN_TABLE: [i32; 64] = [
    0, 0, 0, 0, 0, 0, 0, 0,
    100, 100, 100, 100, 100, 100, 100, 100,
    70, 70, 70, 70, 70, 70, 70, 70,
    50, 50, 50, 50, 50, 50, 50, 50,
    30, 30, 30, 30, 30, 30, 30, 30,
    15, 15, 15, 15, 15, 15, 15, 15,
    15, 15, 15, 15, 15, 15, 15, 15,
    0, 0, 0, 0, 0, 0, 0, 0,
];

pub const KNIGHT_TABLE: [i32; 64] = [
    -50, -40, -30, -30, -30, -30, -40, -50,
    -40, -20, 0, 0, 0, 0, -20, -40,
    -30, 0, 10, 15, 15, 10, 0, -30,
    -30, 5, 15, 20, 20, 15, 5, -30,
    -30, 0, 15, 20, 20, 15, 0, -30,
    -30, 5, 10, 15, 15, 10, 5, -30,
    -40, -20, 0, 5, 5, 0, -20, -40,
    -50, -40, -30, -30, -30, -30, -40, -50,
];

pub const BISHOP_TABLE: [i32; 64] = [
    -20, -10, -10, -10, -10, -10, -10, -20,
    -10, 0, 0, 0, 0, 0, 0, -10,
    -10, 0, 5, 10, 10, 5, 0, -10,
    -10, 5, 5, 10, 10, 5, 5, -10,
    -10, 0, 10, 10, 10, 10, 0, -10,
    -10, 10, 10, 10, 10, 10, 10, -10,
    -10, 5, 0, 0, 0, 0, 5, -10,
    -20, -10, -10, -10, -10, -10, -10, -20,
];

pub const ROOK_TABLE: [i32; 64] = [
    0, 0, 0, 0, 0, 0, 0, 0,
    5, 10, 10, 10, 10, 10, 10, 5,
    -5, 0, 0, 0, 0, 0, 0, -5,
    -5, 0, 0, 0, 0, 0, 0, -5,
    -5, 0, 0, 0, 0, 0, 0, -5,
    -5, 0, 0, 0, 0, 0, 0, -5,
    -5, 0, 0, 0, 0, 0, 0, -5,
    0, 0, 0, 5, 5, 0, 0, 0,
];

pub const QUEEN_TABLE: [i32; 64] = [
    -20, -10, -10, 0, 0, -10, -10, -20,
    -10, 0, 0, 0, 0, 0, 0, -10,
    -10, 0, 5, 5, 5, 5, 0, -10,
    -5, 0, 5, 5, 5, 5, 0, -5,
    -5, 0, 5, 5, 5, 5, 0, -5,
    -10, 5, 5, 5, 5, 5, 0, -10,
    -10, 0, 5, 0, 0, 0, 0, -10,
    -20, -10, -10, 0, 0, -10, -10, -20,
];

pub const MIDDLEGAME_KING_TABLE: [i32; 64] = [
    -30, -40, -40, -50, -50, -40, -40, -30,
    -30, -40, -40, -50, -50, -40, -40, -30,
    -30, -40, -40, -50, -50, -40, -40, -30,
    -30, -40, -40, -50, -50, -40, -40, -30,
    -20, -30, -30, -40, -40, -30, -30, -20,
    -10, -20, -20, -20, -20, -20, -20, -10,
    20, 20, -20, -25, -25, -20, 20, 20,
    20, 30, 20, -40, -10, -40, 30, 20,
];

pub const ENDGAME_KING_TABLE: [i32; 64] = [
    -50, -40, -30, -20, -20, -30, -40, -50,
    -30, -20, -10, 0, 0, -10, -20, -30,
    -30, -10, 20, 30, 30, 20, -10, -30,
    -30, -10, 30, 40, 40, 30, -10, -30,
    -30, -10, 30, 40, 40, 30, -10, -30,
    -30, -10, 20, 30, 30, 20, -10, -30,
    -30, -30, 0, 0, 0, 0, -30, -30,
    -50, -30, -30, -30, -30, -30, -30, -50,
];

pub const PAWN_WORTH: i32 = 100;
pub const KNIGHT_WORTH: i32 = 320;
pub const BISHOP_WORTH: i32 = 330;
pub const ROOK_WORTH: i32 = 500;
pub const QUEEN_WORTH: i32 = 900;
pub const KING_WORTH: i32 = 0;

/// Worth of each piece type, pawn first.
pub const BASE_WORTHS_OF_PIECE_TYPE: [i32; 6] = [100, 320, 330, 500, 900, 0];

/// The square seen from the other side of the board: same file, mirrored rank.
pub open spec fn mirrored_square(i: int) -> int {
    (7 - i / 8) * 8 + i % 8
}

/// Mirrors a square index vertically (a8 <-> a1), so black can read white's tables.
pub fn flip_index(i: usize) -> (r: usize)
    ensures
        r == i ^ 56,
        i < 64 ==> r == mirrored_square(i as int),
{
    let r = i ^ 56;
    proof {
        if i < 64 {
            assert((i ^ 56usize) == (7 - i / 8) * 8 + i % 8) by (bit_vector)
                requires
                    i < 64,
            ;
        }
    }
    r
}

/// Mirroring twice gives back the square.
pub proof fn lemma_flip_index_involution(i: usize)
    ensures
        (i ^ 56usize) ^ 56usize == i,
{
    assert((i ^ 56usize) ^ 56usize == i) by (bit_vector);
}

} // verus!
