//! Tables computed once at start-up: distances to the board edges and the
//! pawn, knight and king attack sets of every square.
use vstd::prelude::*;
use crate::utils::bit_set;
use crate::bitboards::{
    NOT_A_FILE, NOT_AB_FILES, NOT_H_FILE, NOT_GH_FILES, knight_step, king_step,
    pawn_capture_step, is_knight_table, knight_attacks_of, lemma_file_masks,
};

verus! {

pub const DIRECTION_OFFSETS: [i8; 8] = [-8, 8, -1, 1, -7, 7, -9, 9];

pub const SHORT_CASTLE_MASK: [u64; 2] = [0x60, 0x6000000000000000];
pub const LONG_CASTLE_MASK: [u64; 2] = [0x0C, 0x0C00000000000000];

pub open spec fn min_int(a: int, b: int) -> int {
    if a <= b { a } else { b }
}

/// Squares from `i` to the edge in the directions north, south, west, east,
/// north-east, south-west, north-west, south-east (north = towards row 0).
pub open spec fn edge_distance(i: int, d: int) -> int {
    let x = i % 8;
    let y = i / 8;
    if d == 0 { y }
    else if d == 1 { 7 - y }
    else if d == 2 { x }
    else if d == 3 { 7 - x }
    else if d == 4 { min_int(y, 7 - x) }
    else if d == 5 { min_int(7 - y, x) }
    else if d == 6 { min_int(y, x) }
    else { min_int(7 - y, 7 - x) }
}

/// Pawn attacks as this table keeps them: only for squares off the first and
/// last rows (pawns never stand there).
pub open spec fn pawn_table_bit(color: int, i: u64, j: u64) -> bool {
    8 <= i < 56 && pawn_capture_step(color, i, j)
}

pub open spec fn is_king_table(t: Seq<u64>) -> bool {
    &&& t.len() == 64
    &&& forall|i: u64, j: u64| i < 64 && j < 64 ==> (#[trigger] bit_set(t[i as int], j)
        <==> king_step(i, j))
}

pub open spec fn is_pawn_table(t: Seq<u64>, color: int) -> bool {
    &&& t.len() == 64
    &&& forall|i: u64, j: u64| i < 64 && j < 64 ==> (#[trigger] bit_set(t[i as int], j)
        <==> pawn_table_bit(color, i, j))
}

pub open spec fn is_edge_table(t: Seq<[usize; 8]>) -> bool {
    &&& t.len() == 64
    &&& forall|i: int, d: int| 0 <= i < 64 && 0 <= d < 8 ==> (#[trigger] t[i]@[d]) as int
        == edge_distance(i, d)
}

#[derive(Clone)]
pub struct PrecomputedData {
    pub squares_to_edge: [[usize; 8]; 64],
    pub pawn_bitboards: [[u64; 64]; 2],
    pub knight_bitboards: [u64; 64],
    pub king_bitboards: [u64; 64],
}

fn king_attacks_at(i: u64) -> (r: u64)
    requires
        i < 64,
    ensures
        forall|j: u64| j < 64 ==> (bit_set(r, j) <==> king_step(i, j)),
{
    proof {
        lemma_file_masks();
    }
    let b = 1u64 << i;
    let mut bitboard: u64 = 0;
    bitboard = bitboard | ((b & NOT_H_FILE) >> 9u64);
    bitboard = bitboard | (b >> 8u64);
    bitboard = bitboard | ((b & NOT_A_FILE) >> 7u64);
    bitboard = bitboard | ((b & NOT_H_FILE) >> 1u64);
    bitboard = bitboard | ((b & NOT_A_FILE) << 9u64);
    bitboard = bitboard | (b << 8u64);
    bitboard = bitboard | ((b & NOT_H_FILE) << 7u64);
    bitboard = bitboard | ((b & NOT_A_FILE) << 1u64);
    proof {
        assert forall|j: u64| j < 64 implies (bit_set(bitboard, j) <==> king_step(i, j)) by {
            assert(bit_set(0u64 | ((b & 0xFEFEFEFEFEFEFEFEu64) >> 9u64) | (b >> 8u64)
                | ((b & 0x7F7F7F7F7F7F7F7Fu64) >> 7u64) | ((b & 0xFEFEFEFEFEFEFEFEu64) >> 1u64)
                | ((b & 0x7F7F7F7F7F7F7F7Fu64) << 9u64) | (b << 8u64)
                | ((b & 0xFEFEFEFEFEFEFEFEu64) << 7u64) | ((b & 0x7F7F7F7F7F7F7F7Fu64) << 1u64), j)
                <==> king_step(i, j)) by (bit_vector)
                requires
                    b == 1u64 << i,
                    i < 64,
                    j < 64,
            ;
        }
    }
    bitboard
}

fn pawn_attacks_at(color: usize, i: u64) -> (r: u64)
    requires
        color < 2,
        8 <= i < 56,
    ensures
        forall|j: u64| j < 64 ==> (bit_set(r, j) <==> pawn_capture_step(color as int, i, j)),
{
    proof {
        lemma_file_masks();
    }
    let b = 1u64 << i;
    let mut bitboard: u64 = 0;
    if color == 0 {
        bitboard = bitboard | ((b & NOT_H_FILE) << 7u64);
        bitboard = bitboard | ((b & NOT_A_FILE) << 9u64);
        proof {
            assert forall|j: u64| j < 64 implies (bit_set(bitboard, j) <==> pawn_capture_step(0, i, j)) by {
                assert(bit_set(0u64 | ((b & 0xFEFEFEFEFEFEFEFEu64) << 7u64)
                    | ((b & 0x7F7F7F7F7F7F7F7Fu64) << 9u64), j) <==> (((j % 8) == (i % 8) + 1
                    || (j % 8) + 1 == (i % 8)) && j / 8 == i / 8 + 1)) by (bit_vector)
                    requires
                        b == 1u64 << i,
                        i < 64,
                        j < 64,
                ;
            }
        }
    } else {
        bitboard = bitboard | ((b & NOT_H_FILE) >> 9u64);
        bitboard = bitboard | ((b & NOT_A_FILE) >> 7u64);
        proof {
            assert forall|j: u64| j < 64 implies (bit_set(bitboard, j) <==> pawn_capture_step(1, i, j)) by {
                assert(bit_set(0u64 | ((b & 0xFEFEFEFEFEFEFEFEu64) >> 9u64)
                    | ((b & 0x7F7F7F7F7F7F7F7Fu64) >> 7u64), j) <==> (((j % 8) == (i % 8) + 1
                    || (j % 8) + 1 == (i % 8)) && j / 8 + 1 == i / 8)) by (bit_vector)
                    requires
                        b == 1u64 << i,
                        i < 64,
                        j < 64,
                ;
            }
        }
    }
    bitboard
}

proof fn lemma_zero_bits()
    ensures
        forall|j: u64| !bit_set(0u64, j),
{
    assert forall|j: u64| !bit_set(0u64, j) by {
        assert((0u64 >> j) & 1u64 != 1u64) by (bit_vector);
    }
}

impl PrecomputedData {
    pub fn calculate() -> (r: Self)
        ensures
            is_edge_table(r.squares_to_edge@),
            is_pawn_table(r.pawn_bitboards@[0]@, 0),
            is_pawn_table(r.pawn_bitboards@[1]@, 1),
            is_knight_table(r.knight_bitboards@),
            is_king_table(r.king_bitboards@),
    {
        let pawn_bitboards = Self::calculate_pawn_bitboards();
        PrecomputedData {
            squares_to_edge: Self::calculate_squares_to_edge(),
            pawn_bitboards,
            knight_bitboards: Self::calculate_knight_bitboards(),
            king_bitboards: Self::calculate_king_bitboards(),
        }
    }

    fn calculate_squares_to_edge() -> (r: [[usize; 8]; 64])
        ensures
            is_edge_table(r@),
    {
        let mut squares_to_edge = [[0usize; 8]; 64];
        let mut y: usize = 0;
        while y < 8
            invariant
                y <= 8,
                squares_to_edge@.len() == 64,
                forall|i: int, d: int| 0 <= i < y * 8 && 0 <= d < 8 ==> (
                #[trigger] squares_to_edge@[i]@[d]) as int == edge_distance(i, d),
            decreases 8 - y,
        {
            let mut x: usize = 0;
            while x < 8
                invariant
                    y < 8,
                    x <= 8,
                    squares_to_edge@.len() == 64,
                    forall|i: int, d: int| 0 <= i < y * 8 + x && 0 <= d < 8 ==> (
                    #[trigger] squares_to_edge@[i]@[d]) as int == edge_distance(i, d),
                decreases 8 - x,
            {
                let north_to_edge = y;
                let south_to_edge = 7 - y;
                let west_to_edge = x;
                let east_to_edge = 7 - x;
                let entry: [usize; 8] = [
                    north_to_edge,
                    south_to_edge,
                    west_to_edge,
                    east_to_edge,
                    if north_to_edge <= east_to_edge { north_to_edge } else { east_to_edge },
                    if south_to_edge <= west_to_edge { south_to_edge } else { west_to_edge },
                    if north_to_edge <= west_to_edge { north_to_edge } else { west_to_edge },
                    if south_to_edge <= east_to_edge { south_to_edge } else { east_to_edge },
                ];
                let idx = x + y * 8;
                proof {
                    assert(idx as int % 8 == x as int && idx as int / 8 == y as int);
                }
                squares_to_edge[idx] = entry;
                x = x + 1;
            }
            y = y + 1;
        }
        squares_to_edge
    }

    fn calculate_pawn_bitboards() -> (r: [[u64; 64]; 2])
        ensures
            is_pawn_table(r@[0]@, 0),
            is_pawn_table(r@[1]@, 1),
    {
        proof {
            lemma_zero_bits();
        }
        let mut bitboards = [[0u64; 64]; 2];
        let mut color: usize = 0;
        while color < 2
            invariant
                color <= 2,
                bitboards@.len() == 2,
                forall|c: int| color <= c < 2 ==> #[trigger] bitboards@[c]@ == seq![0u64; 64],
                forall|c: int| 0 <= c < color ==> is_pawn_table(#[trigger] bitboards@[c]@, c),
            decreases 2 - color,
        {
            let mut table = bitboards[color];
            let mut i: usize = 8;
            while i < 56
                invariant
                    color < 2,
                    8 <= i <= 56,
                    table@.len() == 64,
                    forall|k: int| i <= k < 64 ==> #[trigger] table@[k] == 0u64,
                    forall|k: int| 0 <= k < 8 ==> #[trigger] table@[k] == 0u64,
                    forall|k: u64, j: u64| 8 <= k < i && j < 64 ==> (#[trigger] bit_set(
                        table@[k as int],
                        j,
                    ) <==> pawn_capture_step(color as int, k, j)),
                decreases 56 - i,
            {
                table[i] = pawn_attacks_at(color, i as u64);
                i = i + 1;
            }
            bitboards[color] = table;
            proof {
                assert forall|k: u64, j: u64| k < 64 && j < 64 implies (#[trigger] bit_set(
                    table@[k as int],
                    j,
                ) <==> pawn_table_bit(color as int, k, j)) by {
                    if k < 8 || k >= 56 {
                        assert(table@[k as int] == 0u64);
                        lemma_zero_bits();
                    }
                }
            }
            color = color + 1;
        }
        bitboards
    }

    fn calculate_knight_bitboards() -> (r: [u64; 64])
        ensures
            is_knight_table(r@),
    {
        let mut bitboards = [0u64; 64];
        let mut i: usize = 0;
        while i < 64
            invariant
                i <= 64,
                bitboards@.len() == 64,
                forall|k: u64, j: u64| k < i && j < 64 ==> (#[trigger] bit_set(bitboards@[k as int], j)
                    <==> knight_step(k, j)),
            decreases 64 - i,
        {
            bitboards[i] = knight_attacks_of(i as u64);
            i = i + 1;
        }
        bitboards
    }

    fn calculate_king_bitboards() -> (r: [u64; 64])
        ensures
            is_king_table(r@),
    {
        let mut bitboards = [0u64; 64];
        let mut i: usize = 0;
        while i < 64
            invariant
                i <= 64,
                bitboards@.len() == 64,
                forall|k: u64, j: u64| k < i && j < 64 ==> (#[trigger] bit_set(bitboards@[k as int], j)
                    <==> king_step(k, j)),
            decreases 64 - i,
        {
            bitboards[i] = king_attacks_at(i as u64);
            i = i + 1;
        }
        bitboards
    }
}

} // verus!
