//! File masks and the knight attack table.
//!
//! Bit `i` of a bitboard stands for square `i`: file `i % 8` (0 = a) and row
//! `i / 8` (0 = rank 8). The masks below are named after the bit order of the
//! engine, in which the byte's highest bit is the file called "A" here.
use vstd::prelude::*;
use crate::utils::bit_set;

verus! {

pub const A_FILE: u64 = 0b10000000_10000000_10000000_10000000_10000000_10000000_10000000_10000000;
pub const B_FILE: u64 = 0b01000000_01000000_01000000_01000000_01000000_01000000_01000000_01000000;
pub const C_FILE: u64 = 0b00100000_00100000_00100000_00100000_00100000_00100000_00100000_00100000;
pub const D_FILE: u64 = 0b00010000_00010000_00010000_00010000_00010000_00010000_00010000_00010000;
pub const E_FILE: u64 = 0b00001000_00001000_00001000_00001000_00001000_00001000_00001000_00001000;
pub const F_FILE: u64 = 0b00000100_00000100_00000100_00000100_00000100_00000100_00000100_00000100;
pub const G_FILE: u64 = 0b00000010_00000010_00000010_00000010_00000010_00000010_00000010_00000010;
pub const H_FILE: u64 = 0b00000001_00000001_00000001_00000001_00000001_00000001_00000001_00000001;

pub const NOT_A_FILE: u64 = B_FILE | C_FILE | D_FILE | E_FILE | F_FILE | G_FILE | H_FILE;
pub const NOT_AB_FILES: u64 = C_FILE | D_FILE | E_FILE | F_FILE | G_FILE | H_FILE;
pub const NOT_H_FILE: u64 = A_FILE | B_FILE | C_FILE | D_FILE | E_FILE | F_FILE | G_FILE;
pub const NOT_GH_FILES: u64 = A_FILE | B_FILE | C_FILE | D_FILE | E_FILE | F_FILE;

/// A knight on square `i` reaches square `j`: one file and two rows apart, or
/// two files and one row apart.
pub open spec fn knight_step(i: u64, j: u64) -> bool {
    let fi = i % 8;
    let ri = i / 8;
    let fj = j % 8;
    let rj = j / 8;
    ||| fj == fi + 1 && rj == ri + 2
    ||| fj + 1 == fi && rj == ri + 2
    ||| fj == fi + 1 && rj + 2 == ri
    ||| fj + 1 == fi && rj + 2 == ri
    ||| fj == fi + 2 && rj == ri + 1
    ||| fj + 2 == fi && rj == ri + 1
    ||| fj == fi + 2 && rj + 1 == ri
    ||| fj + 2 == fi && rj + 1 == ri
}

/// A king on square `i` reaches square `j`: a different square at most one file
/// and one row away.
pub open spec fn king_step(i: u64, j: u64) -> bool {
    let fi = i % 8;
    let ri = i / 8;
    let fj = j % 8;
    let rj = j / 8;
    &&& (fj == fi || fj == fi + 1 || fj + 1 == fi)
    &&& (rj == ri || rj == ri + 1 || rj + 1 == ri)
    &&& !(fj == fi && rj == ri)
}

/// A pawn of colour `color` (0 = black, moving down the rows; 1 = white, moving
/// up) on square `i` attacks square `j`: one row forward and one file aside.
pub open spec fn pawn_capture_step(color: int, i: u64, j: u64) -> bool {
    let fi = i % 8;
    let ri = i / 8;
    let fj = j % 8;
    let rj = j / 8;
    &&& (fj == fi + 1 || fj + 1 == fi)
    &&& if color == 0 { rj == ri + 1 } else { rj + 1 == ri }
}

/// The knight attack pattern of square `i`, built by shifting the square's bit
/// in the eight knight directions with the files that would wrap masked off.
pub open spec fn knight_pattern(i: u64) -> u64 {
    (((1u64 << i) & 0x3F3F3F3F3F3F3F3Fu64) << 10u64)
    | (((1u64 << i) & 0x7F7F7F7F7F7F7F7Fu64) << 17u64)
    | (((1u64 << i) & 0xFEFEFEFEFEFEFEFEu64) << 15u64)
    | (((1u64 << i) & 0xFCFCFCFCFCFCFCFCu64) << 6u64)
    | (((1u64 << i) & 0xFCFCFCFCFCFCFCFCu64) >> 10u64)
    | (((1u64 << i) & 0xFEFEFEFEFEFEFEFEu64) >> 17u64)
    | (((1u64 << i) & 0x7F7F7F7F7F7F7F7Fu64) >> 15u64)
    | (((1u64 << i) & 0x3F3F3F3F3F3F3F3Fu64) >> 6u64)
}

pub proof fn lemma_knight_pattern(i: u64, j: u64)
    requires
        i < 64,
        j < 64,
    ensures
        bit_set(knight_pattern(i), j) <==> knight_step(i, j),
{
    assert(bit_set(knight_pattern(i), j) <==> knight_step(i, j)) by (bit_vector)
        requires
            i < 64,
            j < 64,
    ;
}


/// Every entry of `t` is the knight attack set of its square.
pub open spec fn is_knight_table(t: Seq<u64>) -> bool {
    &&& t.len() == 64
    &&& forall|i: u64, j: u64| i < 64 && j < 64 ==> (#[trigger] bit_set(t[i as int], j)
        <==> knight_step(i, j))
}

pub proof fn lemma_file_masks()
    ensures
        NOT_A_FILE == 0x7F7F7F7F7F7F7F7Fu64,
        NOT_AB_FILES == 0x3F3F3F3F3F3F3F3Fu64,
        NOT_H_FILE == 0xFEFEFEFEFEFEFEFEu64,
        NOT_GH_FILES == 0xFCFCFCFCFCFCFCFCu64,
{
    assert(NOT_A_FILE == 0x7F7F7F7F7F7F7F7Fu64) by (bit_vector);
    assert(NOT_AB_FILES == 0x3F3F3F3F3F3F3F3Fu64) by (bit_vector);
    assert(NOT_H_FILE == 0xFEFEFEFEFEFEFEFEu64) by (bit_vector);
    assert(NOT_GH_FILES == 0xFCFCFCFCFCFCFCFCu64) by (bit_vector);
}

/// The knight attack set of square `i`.
pub fn knight_attacks_of(i: u64) -> (r: u64)
    requires
        i < 64,
    ensures
        r == knight_pattern(i),
        forall|j: u64| j < 64 ==> (bit_set(r, j) <==> knight_step(i, j)),
{
    proof {
        lemma_file_masks();
        assert forall|j: u64| j < 64 implies (bit_set(knight_pattern(i), j) <==> knight_step(i, j)) by {
            lemma_knight_pattern(i, j);
        }
    }
    let mut bitboard: u64 = 0;
    bitboard = bitboard | (((1u64 << i) & NOT_AB_FILES) << 10u64);
    bitboard = bitboard | (((1u64 << i) & NOT_A_FILE) << 17u64);
    bitboard = bitboard | (((1u64 << i) & NOT_H_FILE) << 15u64);
    bitboard = bitboard | (((1u64 << i) & NOT_GH_FILES) << 6u64);
    bitboard = bitboard | (((1u64 << i) & NOT_GH_FILES) >> 10u64);
    bitboard = bitboard | (((1u64 << i) & NOT_H_FILE) >> 17u64);
    bitboard = bitboard | (((1u64 << i) & NOT_A_FILE) >> 15u64);
    bitboard = bitboard | (((1u64 << i) & NOT_AB_FILES) >> 6u64);
    proof {
        let b = 1u64 << i;
        assert(0u64 | ((b & 0x3F3F3F3F3F3F3F3Fu64) << 10u64)
            | ((b & 0x7F7F7F7F7F7F7F7Fu64) << 17u64)
            | ((b & 0xFEFEFEFEFEFEFEFEu64) << 15u64)
            | ((b & 0xFCFCFCFCFCFCFCFCu64) << 6u64)
            | ((b & 0xFCFCFCFCFCFCFCFCu64) >> 10u64)
            | ((b & 0xFEFEFEFEFEFEFEFEu64) >> 17u64)
            | ((b & 0x7F7F7F7F7F7F7F7Fu64) >> 15u64)
            | ((b & 0x3F3F3F3F3F3F3F3Fu64) >> 6u64) == knight_pattern(i)) by (bit_vector)
            requires b == 1u64 << i;
    }
    bitboard
}

pub struct Bitboards {
    pub knight_bitboards: [u64; 64],
}

impl Bitboards {
    pub fn initialize() -> (r: Self)
        ensures
            is_knight_table(r.knight_bitboards@),
    {
        Bitboards { knight_bitboards: Bitboards::initialize_knight_bitboards() }
    }

    fn initialize_knight_bitboards() -> (r: [u64; 64])
        ensures
            is_knight_table(r@),
    {
        let mut bitboards = [0u64; 64];
        let mut i: usize = 0;
        while i < 64
            invariant
                i <= 64,
                bitboards@.len() == 64,
                forall|k: u64, j: u64| k < i && j < 64 ==> (#[trigger] bit_set(bitboards@[k as int], j)
                    <==> knight_step(k, j)),
            decreases 64 - i,
        {
            let b = knight_attacks_of(i as u64);
            bitboards[i] = b;
            i = i + 1;
        }
        bitboards
    }
}

} // verus!
