//! Per-square tables for move generation and evaluation: distances to the
//! edges, file and pawn-structure masks, pawn/knight/king attack sets, the
//! occupancy masks of the sliding pieces, and ray-scanned sliding attacks.
use vstd::prelude::*;
use crate::utils::bit_set;
use crate::bitboards::{
    A_FILE, NOT_A_FILE, NOT_AB_FILES, NOT_H_FILE, NOT_GH_FILES, knight_step, king_step,
    pawn_capture_step, lemma_file_masks,
};

verus! {

pub const FIRST_RANK: u64 = 0b11111111;

pub const NO: i8 = -8;
pub const EA: i8 = 1;
pub const SO: i8 = 8;
pub const WE: i8 = -1;
pub const NOEA: i8 = -7;
pub const SOWE: i8 = 7;
pub const SOEA: i8 = 9;
pub const NOWE: i8 = -9;

/// Directions 0..4 are the rook's, 4..8 the bishop's, 0..8 the queen's.
pub const ROOK_DIRECTIONS_START: usize = 0;
pub const ROOK_DIRECTIONS_END: usize = 4;
pub const BISHOP_DIRECTIONS_START: usize = 4;
pub const BISHOP_DIRECTIONS_END: usize = 8;

/// North, east, south, west, north-east, south-east, south-west, north-west
/// as square-index steps (north = towards row 0).
pub const DIRECTION_OFFSETS: [i8; 8] = [-8, 1, 8, -1, -7, 9, 7, -9];

pub open spec fn dir_dx(d: int) -> int {
    if d == 1 || d == 4 || d == 5 { 1 } else if d == 3 || d == 6 || d == 7 { -1 } else { 0 }
}

pub open spec fn dir_dy(d: int) -> int {
    if d == 0 || d == 4 || d == 7 { -1 } else if d == 2 || d == 5 || d == 6 { 1 } else { 0 }
}

pub open spec fn dir_offset(d: int) -> int {
    dir_dx(d) + 8 * dir_dy(d)
}

pub open spec fn min_int(a: int, b: int) -> int {
    if a <= b { a } else { b }
}

/// How many squares lie between square `i` and the board edge in direction `d`.
pub open spec fn edge_distance(i: int, d: int) -> int {
    let x = i % 8;
    let y = i / 8;
    let n = y;
    let e = 7 - x;
    let s = 7 - y;
    let w = x;
    if d == 0 { n }
    else if d == 1 { e }
    else if d == 2 { s }
    else if d == 3 { w }
    else if d == 4 { min_int(n, e) }
    else if d == 5 { min_int(s, e) }
    else if d == 6 { min_int(s, w) }
    else { min_int(n, w) }
}

/// The square `n` steps from `i` in direction `d`.
pub open spec fn ray_square(i: int, d: int, n: int) -> int {
    i + dir_offset(d) * n
}

/// The square `n` steps along the ray is on the board, with the expected file and row.
pub proof fn lemma_ray_square(i: int, d: int, n: int)
    requires
        0 <= i < 64,
        0 <= d < 8,
        0 <= n <= edge_distance(i, d),
    ensures
        0 <= ray_square(i, d, n) < 64,
        ray_square(i, d, n) % 8 == i % 8 + dir_dx(d) * n,
        ray_square(i, d, n) / 8 == i / 8 + dir_dy(d) * n,
{
    let x = i % 8;
    let y = i / 8;
    let nx = x + dir_dx(d) * n;
    let ny = y + dir_dy(d) * n;
    let dx = dir_dx(d);
    let dy = dir_dy(d);
    assert(dx * n == if dx == 1 { n } else if dx == -1 { -n } else { 0 }) by (nonlinear_arith)
        requires
            dx == 1 || dx == -1 || dx == 0,
    ;
    assert(dy * n == if dy == 1 { n } else if dy == -1 { -n } else { 0 }) by (nonlinear_arith)
        requires
            dy == 1 || dy == -1 || dy == 0,
    ;
    assert(0 <= nx < 8 && 0 <= ny < 8);
    assert(ray_square(i, d, n) == nx + 8 * ny) by {
        assert(dir_offset(d) * n == dir_dx(d) * n + 8 * (dir_dy(d) * n)) by (nonlinear_arith);
    }
    assert((nx + 8 * ny) % 8 == nx && (nx + 8 * ny) / 8 == ny) by (nonlinear_arith)
        requires
            0 <= nx < 8,
            0 <= ny < 8,
    ;
}

/// Setting bit `t` of `x` sets exactly that bit.
pub proof fn lemma_or_bit(x: u64, t: u64, j: u64)
    requires
        t < 64,
        j < 64,
    ensures
        bit_set(x | (1u64 << t), j) <==> (bit_set(x, j) || j == t),
{
    assert(bit_set(x | (1u64 << t), j) <==> (bit_set(x, j) || j == t)) by (bit_vector)
        requires
            t < 64,
            j < 64,
    ;
}

pub proof fn lemma_zero_bits()
    ensures
        forall|j: u64| !bit_set(0u64, j),
{
    assert forall|j: u64| !bit_set(0u64, j) by {
        assert((0u64 >> j) & 1u64 != 1u64) by (bit_vector);
    }
}

/// No square strictly before step `n` of the ray is occupied.
pub open spec fn path_clear(i: int, d: int, occupancies: u64, n: int) -> bool {
    forall|m: int| 1 <= m < n ==> !#[trigger] bit_set(occupancies, ray_square(i, d, m) as u64)
}

/// A sliding piece on `i` attacks `j` along direction `d`: `j` is on the ray
/// and every square before it on the ray is empty.
pub open spec fn slides_to(i: int, d: int, occupancies: u64, j: int) -> bool {
    exists|n: int|
        1 <= n <= edge_distance(i, d) && j == #[trigger] ray_square(i, d, n) && path_clear(
            i,
            d,
            occupancies,
            n,
        )
}

/// A sliding piece on `i` moving in the directions `lo..hi` attacks `j`.
pub open spec fn slider_attacks(i: int, lo: int, hi: int, occupancies: u64, j: int) -> bool {
    exists|d: int| lo <= d < hi && #[trigger] slides_to(i, d, occupancies, j)
}

/// `j` lies on the ray from `i` in direction `d`, before the ray's last square.
pub open spec fn inner_ray_square(i: int, d: int, j: int) -> bool {
    exists|n: int| 1 <= n < edge_distance(i, d) && j == #[trigger] ray_square(i, d, n)
}

/// The occupancy mask of a sliding piece: the squares on its rays except the
/// last square of each ray.
pub open spec fn relevant_square(i: int, lo: int, hi: int, j: int) -> bool {
    exists|d: int| lo <= d < hi && #[trigger] inner_ray_square(i, d, j)
}

pub open spec fn is_edge_table(t: Seq<[usize; 8]>) -> bool {
    &&& t.len() == 64
    &&& forall|i: int, d: int| 0 <= i < 64 && 0 <= d < 8 ==> (#[trigger] t[i]@[d]) as int
        == edge_distance(i, d)
}

/// A table over the 64 squares whose entry for `i` has exactly the bits `j` with `p(i, j)`.
pub open spec fn is_square_table(t: Seq<u64>, p: spec_fn(int, int) -> bool) -> bool {
    &&& t.len() == 64
    &&& forall|i: int, j: int| 0 <= i < 64 && 0 <= j < 64 ==> (#[trigger] bit_set(t[i], j as u64)
        <==> p(i, j))
}

pub open spec fn same_file_other_square(i: int, j: int) -> bool {
    j % 8 == i % 8 && j != i
}

pub open spec fn adjacent_file(i: int, j: int) -> bool {
    j % 8 == i % 8 + 1 || j % 8 + 1 == i % 8
}

/// The squares of the pawn's file in front of it, up to (not including) the
/// last row; `color` 0 is black (moving down the rows), 1 is white.
pub open spec fn file_in_front(color: int, i: int, j: int) -> bool {
    j % 8 == i % 8 && if color == 0 { i / 8 < j / 8 < 7 } else { 0 < j / 8 < i / 8 }
}

/// The squares of the pawn's file and the files beside it in front of it, up to
/// (not including) the last row.
pub open spec fn ahead_of_pawn(color: int, i: int, j: int) -> bool {
    (j % 8 == i % 8 || adjacent_file(i, j)) && if color == 0 {
        i / 8 < j / 8 < 7
    } else {
        0 < j / 8 < i / 8
    }
}


/// `j` is one of the first `k - 1` squares of the ray from `i` in direction `d`.
pub open spec fn ray_prefix(i: int, d: int, j: int, k: int) -> bool {
    exists|m: int| 1 <= m < k && j == #[trigger] ray_square(i, d, m)
}

/// `j` is attacked along the first `k - 1` squares of the ray.
pub open spec fn slide_prefix(i: int, d: int, occupancies: u64, j: int, k: int) -> bool {
    exists|m: int| 1 <= m < k && j == #[trigger] ray_square(i, d, m) && path_clear(i, d, occupancies, m)
}

proof fn lemma_direction_offsets(d: int)
    requires
        0 <= d < 8,
    ensures
        DIRECTION_OFFSETS@[d] as int == dir_offset(d),
{
    assert(DIRECTION_OFFSETS@ =~= seq![-8i8, 1i8, 8i8, -1i8, -7i8, 9i8, 7i8, -9i8]);
}

/// The square `n` steps from `i` in direction `d`, computed as the engine does.
fn ray_square_exec(i: usize, d: usize, n: usize) -> (r: usize)
    requires
        i < 64,
        d < 8,
        1 <= n <= edge_distance(i as int, d as int),
    ensures
        r as int == ray_square(i as int, d as int, n as int),
        r < 64,
{
    proof {
        lemma_direction_offsets(d as int);
        lemma_ray_square(i as int, d as int, n as int);
        assert(n <= 7) by {
            assert(edge_distance(i as int, d as int) <= 7);
        }
        assert(-63 <= dir_offset(d as int) * n <= 63) by (nonlinear_arith)
            requires
                -9 <= dir_offset(d as int) <= 9,
                1 <= n <= 7,
        ;
    }
    let off = DIRECTION_OFFSETS[d];
    let step: i8 = off * (n as i8);
    let to: i8 = (i as i8) + step;
    to as usize
}

fn edge_entry(i: usize) -> (r: [usize; 8])
    requires
        i < 64,
    ensures
        forall|d: int| 0 <= d < 8 ==> (#[trigger] r@[d]) as int == edge_distance(i as int, d),
{
    let file = i % 8;
    let rank = i / 8;
    let north_to_edge = rank;
    let south_to_edge = 7 - rank;
    let west_to_edge = file;
    let east_to_edge = 7 - file;
    [
        north_to_edge,
        east_to_edge,
        south_to_edge,
        west_to_edge,
        if north_to_edge <= east_to_edge { north_to_edge } else { east_to_edge },
        if south_to_edge <= east_to_edge { south_to_edge } else { east_to_edge },
        if south_to_edge <= west_to_edge { south_to_edge } else { west_to_edge },
        if north_to_edge <= west_to_edge { north_to_edge } else { west_to_edge },
    ]
}

fn file_of_square_at(i: usize) -> (r: u64)
    requires
        i < 64,
    ensures
        forall|j: int| 0 <= j < 64 ==> (#[trigger] bit_set(r, j as u64) <==> same_file_other_square(i as int, j)),
{
    let f = (i % 8) as u64;
    let r = (A_FILE >> (7 - f)) ^ (1u64 << (i as u64));
    proof {
        let ii = i as u64;
        assert forall|j: int| 0 <= j < 64 implies (#[trigger] bit_set(r, j as u64) <==> same_file_other_square(i as int, j)) by {
            let jj = j as u64;
            assert(bit_set((0x8080808080808080u64 >> (7 - f) as u64) ^ (1u64 << ii), jj) <==> (jj % 8 == ii % 8 && jj != ii)) by (bit_vector)
                requires
                    ii < 64,
                    jj < 64,
                    f == ii % 8,
            ;
        }
    }
    r
}

fn files_beside_square_at(i: usize) -> (r: u64)
    requires
        i < 64,
    ensures
        forall|j: int| 0 <= j < 64 ==> (#[trigger] bit_set(r, j as u64) <==> adjacent_file(i as int, j)),
{
    proof {
        lemma_file_masks();
    }
    let f = (i % 8) as u64;
    // The file to the right exists only for files 0..7; the engine's mask is empty otherwise.
    let right: u64 = if f < 7 { (A_FILE >> (6 - f)) & NOT_H_FILE } else { 0 };
    let left: u64 = (A_FILE >> (8 - f)) & NOT_A_FILE;
    let r = right | left;
    proof {
        let ii = i as u64;
        assert forall|j: int| 0 <= j < 64 implies (#[trigger] bit_set(r, j as u64) <==> adjacent_file(i as int, j)) by {
            let jj = j as u64;
            assert(bit_set((if f < 7 { (0x8080808080808080u64 >> (6 - f) as u64) & 0xFEFEFEFEFEFEFEFEu64 } else { 0u64 })
                | ((0x8080808080808080u64 >> (8 - f) as u64) & 0x7F7F7F7F7F7F7F7Fu64), jj)
                <==> (jj % 8 == ii % 8 + 1 || jj % 8 + 1 == ii % 8)) by (bit_vector)
                requires
                    ii < 64,
                    jj < 64,
                    f == ii % 8,
            ;
        }
    }
    r
}

fn pawn_attacks_at(color: usize, i: usize) -> (r: u64)
    requires
        color < 2,
        i < 64,
    ensures
        forall|j: int| 0 <= j < 64 ==> (#[trigger] bit_set(r, j as u64) <==> pawn_capture_step(color as int, i as u64, j as u64)),
{
    proof {
        lemma_file_masks();
    }
    let piece = 1u64 << (i as u64);
    let mut bitboard: u64 = 0;
    let ii = i as u64;
    if color == 0 {
        bitboard = bitboard | ((piece << 9u64) & NOT_H_FILE);
        bitboard = bitboard | ((piece << 7u64) & NOT_A_FILE);
        proof {
            assert forall|j: int| 0 <= j < 64 implies (#[trigger] bit_set(bitboard, j as u64) <==> pawn_capture_step(0, ii, j as u64)) by {
                let jj = j as u64;
                assert(bit_set(0u64 | ((piece << 9u64) & 0xFEFEFEFEFEFEFEFEu64) | ((piece << 7u64) & 0x7F7F7F7F7F7F7F7Fu64), jj)
                    <==> ((jj % 8 == ii % 8 + 1 || jj % 8 + 1 == ii % 8) && jj / 8 == ii / 8 + 1)) by (bit_vector)
                    requires
                        piece == 1u64 << ii,
                        ii < 64,
                        jj < 64,
                ;
            }
        }
    } else {
        bitboard = bitboard | ((piece >> 7u64) & NOT_H_FILE);
        bitboard = bitboard | ((piece >> 9u64) & NOT_A_FILE);
        proof {
            assert forall|j: int| 0 <= j < 64 implies (#[trigger] bit_set(bitboard, j as u64) <==> pawn_capture_step(1, ii, j as u64)) by {
                let jj = j as u64;
                assert(bit_set(0u64 | ((piece >> 7u64) & 0xFEFEFEFEFEFEFEFEu64) | ((piece >> 9u64) & 0x7F7F7F7F7F7F7F7Fu64), jj)
                    <==> ((jj % 8 == ii % 8 + 1 || jj % 8 + 1 == ii % 8) && jj / 8 + 1 == ii / 8)) by (bit_vector)
                    requires
                        piece == 1u64 << ii,
                        ii < 64,
                        jj < 64,
                ;
            }
        }
    }
    bitboard
}

fn knight_attacks_at(i: usize) -> (r: u64)
    requires
        i < 64,
    ensures
        forall|j: int| 0 <= j < 64 ==> (#[trigger] bit_set(r, j as u64) <==> knight_step(i as u64, j as u64)),
{
    proof {
        lemma_file_masks();
    }
    let piece = 1u64 << (i as u64);
    let ii = i as u64;
    let mut b: u64 = 0;
    b = b | ((piece << 17u64) & NOT_H_FILE);
    b = b | ((piece << 10u64) & NOT_GH_FILES);
    b = b | ((piece << 6u64) & NOT_AB_FILES);
    b = b | ((piece << 15u64) & NOT_A_FILE);
    b = b | ((piece >> 15u64) & NOT_H_FILE);
    b = b | ((piece >> 6u64) & NOT_GH_FILES);
    b = b | ((piece >> 10u64) & NOT_AB_FILES);
    b = b | ((piece >> 17u64) & NOT_A_FILE);
    proof {
        assert forall|j: int| 0 <= j < 64 implies (#[trigger] bit_set(b, j as u64) <==> knight_step(ii, j as u64)) by {
            let jj = j as u64;
            assert(bit_set(0u64 | ((piece << 17u64) & 0xFEFEFEFEFEFEFEFEu64)
                | ((piece << 10u64) & 0xFCFCFCFCFCFCFCFCu64) | ((piece << 6u64) & 0x3F3F3F3F3F3F3F3Fu64)
                | ((piece << 15u64) & 0x7F7F7F7F7F7F7F7Fu64) | ((piece >> 15u64) & 0xFEFEFEFEFEFEFEFEu64)
                | ((piece >> 6u64) & 0xFCFCFCFCFCFCFCFCu64) | ((piece >> 10u64) & 0x3F3F3F3F3F3F3F3Fu64)
                | ((piece >> 17u64) & 0x7F7F7F7F7F7F7F7Fu64), jj) <==> knight_step(ii, jj)) by (bit_vector)
                requires
                    piece == 1u64 << ii,
                    ii < 64,
                    jj < 64,
            ;
        }
    }
    b
}

fn king_attacks_at(i: usize) -> (r: u64)
    requires
        i < 64,
    ensures
        forall|j: int| 0 <= j < 64 ==> (#[trigger] bit_set(r, j as u64) <==> king_step(i as u64, j as u64)),
{
    proof {
        lemma_file_masks();
    }
    let piece = 1u64 << (i as u64);
    let ii = i as u64;
    let mut b: u64 = 0;
    b = b | ((piece << 1u64) & NOT_H_FILE);
    b = b | ((piece >> 1u64) & NOT_A_FILE);
    b = b | (piece << 8u64);
    b = b | (piece >> 8u64);
    b = b | ((piece << 9u64) & NOT_H_FILE);
    b = b | ((piece >> 9u64) & NOT_A_FILE);
    b = b | ((piece << 7u64) & NOT_A_FILE);
    b = b | ((piece >> 7u64) & NOT_H_FILE);
    proof {
        assert forall|j: int| 0 <= j < 64 implies (#[trigger] bit_set(b, j as u64) <==> king_step(ii, j as u64)) by {
            let jj = j as u64;
            assert(bit_set(0u64 | ((piece << 1u64) & 0xFEFEFEFEFEFEFEFEu64)
                | ((piece >> 1u64) & 0x7F7F7F7F7F7F7F7Fu64) | (piece << 8u64) | (piece >> 8u64)
                | ((piece << 9u64) & 0xFEFEFEFEFEFEFEFEu64) | ((piece >> 9u64) & 0x7F7F7F7F7F7F7F7Fu64)
                | ((piece << 7u64) & 0x7F7F7F7F7F7F7F7Fu64) | ((piece >> 7u64) & 0xFEFEFEFEFEFEFEFEu64), jj)
                <==> king_step(ii, jj)) by (bit_vector)
                requires
                    piece == 1u64 << ii,
                    ii < 64,
                    jj < 64,
            ;
        }
    }
    b
}


/// `j` is on an inner ray square of one of the directions `lo..d`.
pub open spec fn dirs_relevant(i: int, lo: int, d: int, j: int) -> bool {
    exists|e: int| lo <= e < d && #[trigger] inner_ray_square(i, e, j)
}

proof fn lemma_three_squares(x: u64, t: u64, j: u64)
    requires
        1 <= t <= 62,
        j < 64,
    ensures
        bit_set(x | ((1u64 << (t - 1) as u64) & 0x7F7F7F7F7F7F7F7Fu64) | (1u64 << t) | ((1u64 << (t + 1) as u64)
            & 0xFEFEFEFEFEFEFEFEu64), j) <==> (bit_set(x, j) || (j / 8 == t / 8 && (j % 8 == t % 8
            || j % 8 + 1 == t % 8 || j % 8 == t % 8 + 1))),
{
    assert(bit_set(x | ((1u64 << (t - 1) as u64) & 0x7F7F7F7F7F7F7F7Fu64) | (1u64 << t) | ((1u64 << (t + 1) as u64)
        & 0xFEFEFEFEFEFEFEFEu64), j) <==> (bit_set(x, j) || (j / 8 == t / 8 && (j % 8 == t % 8
        || j % 8 + 1 == t % 8 || j % 8 == t % 8 + 1)))) by (bit_vector)
        requires
            1 <= t <= 62,
            j < 64,
    ;
}

/// The file squares in front of a pawn on `i` (colour 0 = black, 1 = white).
fn file_in_front_at(color: usize, i: usize) -> (r: u64)
    requires
        color < 2,
        i < 64,
    ensures
        forall|j: int| 0 <= j < 64 ==> (#[trigger] bit_set(r, j as u64) <==> file_in_front(color as int, i as int, j)),
{
    proof {
        lemma_zero_bits();
    }
    let row = i / 8;
    let mut bb: u64 = 0;
    if color == 0 {
        let south = 7 - row;
        let mut rank: usize = 1;
        while rank < south
            invariant
                i < 64,
                row == i / 8,
                south == 7 - row,
                1 <= rank,
                rank <= south || south == 0,
                south == 0 ==> bb == 0,
                forall|j: int| 0 <= j < 64 ==> (#[trigger] bit_set(bb, j as u64) <==> (j % 8 == i % 8
                    && i / 8 < j / 8 < i / 8 + rank)),
            decreases south - rank,
        {
            let t = i + 8 * rank;
            proof {
                assert forall|j: int| 0 <= j < 64 implies (#[trigger] bit_set(bb | (1u64 << t as u64), j as u64) <==> (j % 8 == i % 8
                    && i / 8 < j / 8 < i / 8 + rank + 1)) by {
                    lemma_or_bit(bb, t as u64, j as u64);
                    assert(t % 8 == i % 8 && t / 8 == i / 8 + rank);
                    if j % 8 == i % 8 && j / 8 == i / 8 + rank {
                        assert(j == t);
                    }
                }
            }
            bb = bb | (1u64 << (t as u64));
            rank = rank + 1;
        }
    } else {
        let north = row;
        let mut rank: usize = 1;
        while rank < north
            invariant
                i < 64,
                row == i / 8,
                north == row,
                1 <= rank,
                rank <= north || north == 0,
                north == 0 ==> bb == 0,
                forall|j: int| 0 <= j < 64 ==> (#[trigger] bit_set(bb, j as u64) <==> (j % 8 == i % 8
                    && i / 8 - rank < j / 8 < i / 8)),
            decreases north - rank,
        {
            let t = i - 8 * rank;
            proof {
                assert forall|j: int| 0 <= j < 64 implies (#[trigger] bit_set(bb | (1u64 << t as u64), j as u64) <==> (j % 8 == i % 8
                    && i / 8 - rank - 1 < j / 8 < i / 8)) by {
                    lemma_or_bit(bb, t as u64, j as u64);
                    assert(t % 8 == i % 8 && t / 8 == i / 8 - rank);
                    if j % 8 == i % 8 && j / 8 == i / 8 - rank {
                        assert(j == t);
                    }
                }
            }
            bb = bb | (1u64 << (t as u64));
            rank = rank + 1;
        }
    }
    bb
}

/// The squares in front of a pawn on `i` on its own and the adjacent files.
fn squares_ahead_at(color: usize, i: usize) -> (r: u64)
    requires
        color < 2,
        i < 64,
    ensures
        forall|j: int| 0 <= j < 64 ==> (#[trigger] bit_set(r, j as u64) <==> ahead_of_pawn(color as int, i as int, j)),
{
    proof {
        lemma_zero_bits();
        lemma_file_masks();
    }
    let row = i / 8;
    let mut bb: u64 = 0;
    if color == 0 {
        let south = 7 - row;
        let mut rank: usize = 1;
        while rank < south
            invariant
                i < 64,
                row == i / 8,
                south == 7 - row,
                1 <= rank,
                rank <= south || south == 0,
                south == 0 ==> bb == 0,
                forall|j: int| 0 <= j < 64 ==> (#[trigger] bit_set(bb, j as u64) <==> ((j % 8 == i % 8
                    || adjacent_file(i as int, j)) && i / 8 < j / 8 < i / 8 + rank)),
            decreases south - rank,
        {
            let t = i + 8 * rank;
            let tt = t as u64;
            let below = tt - 1;
            let above = tt + 1;
            let nb = bb | ((1u64 << below) & NOT_A_FILE) | (1u64 << tt) | ((1u64 << above) & NOT_H_FILE);
            proof {
                assert forall|j: int| 0 <= j < 64 implies (#[trigger] bit_set(nb, j as u64) <==> ((j % 8 == i % 8
                    || adjacent_file(i as int, j)) && i / 8 < j / 8 < i / 8 + rank + 1)) by {
                    assert(1 <= tt <= 62);
                    lemma_file_masks();
                    lemma_three_squares(bb, tt, j as u64);
                    assert(t % 8 == i % 8 && t / 8 == i / 8 + rank);
                }
            }
            bb = nb;
            rank = rank + 1;
        }
    } else {
        let north = row;
        let mut rank: usize = 1;
        while rank < north
            invariant
                i < 64,
                row == i / 8,
                north == row,
                1 <= rank,
                rank <= north || north == 0,
                north == 0 ==> bb == 0,
                forall|j: int| 0 <= j < 64 ==> (#[trigger] bit_set(bb, j as u64) <==> ((j % 8 == i % 8
                    || adjacent_file(i as int, j)) && i / 8 - rank < j / 8 < i / 8)),
            decreases north - rank,
        {
            let t = i - 8 * rank;
            let tt = t as u64;
            let below = tt - 1;
            let above = tt + 1;
            let nb = bb | ((1u64 << below) & NOT_A_FILE) | (1u64 << tt) | ((1u64 << above) & NOT_H_FILE);
            proof {
                assert forall|j: int| 0 <= j < 64 implies (#[trigger] bit_set(nb, j as u64) <==> ((j % 8 == i % 8
                    || adjacent_file(i as int, j)) && i / 8 - rank - 1 < j / 8 < i / 8)) by {
                    assert(1 <= tt <= 62);
                    lemma_file_masks();
                    lemma_three_squares(bb, tt, j as u64);
                    assert(t % 8 == i % 8 && t / 8 == i / 8 - rank);
                }
            }
            bb = nb;
            rank = rank + 1;
        }
    }
    bb
}


proof fn lemma_ray_prefix_step(i: int, d: int, j: int, n: int)
    requires
        n >= 1,
    ensures
        ray_prefix(i, d, j, n + 1) <==> (ray_prefix(i, d, j, n) || j == ray_square(i, d, n)),
{
    if j == ray_square(i, d, n) {
        assert(1 <= n < n + 1 && j == ray_square(i, d, n));
    }
    if ray_prefix(i, d, j, n + 1) {
        let m = choose|m: int| 1 <= m < n + 1 && j == #[trigger] ray_square(i, d, m);
        if m < n {
            assert(1 <= m < n && j == ray_square(i, d, m));
        }
    }
    if ray_prefix(i, d, j, n) {
        let m = choose|m: int| 1 <= m < n && j == #[trigger] ray_square(i, d, m);
        assert(1 <= m < n + 1 && j == ray_square(i, d, m));
    }
}

proof fn lemma_dirs_relevant_step(i: int, lo: int, d: int, j: int)
    requires
        lo <= d,
    ensures
        dirs_relevant(i, lo, d + 1, j) <==> (dirs_relevant(i, lo, d, j) || inner_ray_square(i, d, j)),
{
    if inner_ray_square(i, d, j) {
        assert(lo <= d < d + 1 && inner_ray_square(i, d, j));
    }
    if dirs_relevant(i, lo, d + 1, j) {
        let e = choose|e: int| lo <= e < d + 1 && #[trigger] inner_ray_square(i, e, j);
        if e < d {
            assert(lo <= e < d && inner_ray_square(i, e, j));
        }
    }
    if dirs_relevant(i, lo, d, j) {
        let e = choose|e: int| lo <= e < d && #[trigger] inner_ray_square(i, e, j);
        assert(lo <= e < d + 1 && inner_ray_square(i, e, j));
    }
}

proof fn lemma_slide_prefix_step(i: int, d: int, occupancies: u64, j: int, n: int)
    requires
        n >= 1,
        path_clear(i, d, occupancies, n),
    ensures
        slide_prefix(i, d, occupancies, j, n + 1) <==> (slide_prefix(i, d, occupancies, j, n) || j
            == ray_square(i, d, n)),
{
    if j == ray_square(i, d, n) {
        assert(1 <= n < n + 1 && j == ray_square(i, d, n) && path_clear(i, d, occupancies, n));
    }
    if slide_prefix(i, d, occupancies, j, n + 1) {
        let m = choose|m: int| 1 <= m < n + 1 && j == #[trigger] ray_square(i, d, m) && path_clear(i, d, occupancies, m);
        if m < n {
            assert(1 <= m < n && j == ray_square(i, d, m) && path_clear(i, d, occupancies, m));
        }
    }
    if slide_prefix(i, d, occupancies, j, n) {
        let m = choose|m: int| 1 <= m < n && j == #[trigger] ray_square(i, d, m) && path_clear(i, d, occupancies, m);
        assert(1 <= m < n + 1 && j == ray_square(i, d, m) && path_clear(i, d, occupancies, m));
    }
}

proof fn lemma_path_clear_step(i: int, d: int, occupancies: u64, n: int)
    requires
        path_clear(i, d, occupancies, n),
        !bit_set(occupancies, ray_square(i, d, n) as u64),
    ensures
        path_clear(i, d, occupancies, n + 1),
{
    assert forall|m: int| 1 <= m < n + 1 implies !#[trigger] bit_set(occupancies, ray_square(i, d, m) as u64) by {
        if m < n {
            assert(!bit_set(occupancies, ray_square(i, d, m) as u64));
        }
    }
}

/// Once the ray meets an occupied square at step `n`, nothing beyond it is attacked.
proof fn lemma_slide_blocked(i: int, d: int, occupancies: u64, j: int, n: int)
    requires
        1 <= n <= edge_distance(i, d),
        bit_set(occupancies, ray_square(i, d, n) as u64),
    ensures
        slides_to(i, d, occupancies, j) <==> slide_prefix(i, d, occupancies, j, n + 1),
{
    if slides_to(i, d, occupancies, j) {
        let m = choose|m: int| 1 <= m <= edge_distance(i, d) && j == #[trigger] ray_square(i, d, m) && path_clear(i, d, occupancies, m);
        if m > n {
            assert(!bit_set(occupancies, ray_square(i, d, n) as u64));
        }
        assert(1 <= m < n + 1 && j == ray_square(i, d, m) && path_clear(i, d, occupancies, m));
    }
    if slide_prefix(i, d, occupancies, j, n + 1) {
        let m = choose|m: int| 1 <= m < n + 1 && j == #[trigger] ray_square(i, d, m) && path_clear(i, d, occupancies, m);
        assert(1 <= m <= edge_distance(i, d) && j == ray_square(i, d, m) && path_clear(i, d, occupancies, m));
    }
}

proof fn lemma_slider_step(i: int, lo: int, d: int, occupancies: u64, j: int)
    requires
        lo <= d,
    ensures
        slider_attacks(i, lo, d + 1, occupancies, j) <==> (slider_attacks(i, lo, d, occupancies, j)
            || slides_to(i, d, occupancies, j)),
{
    if slides_to(i, d, occupancies, j) {
        assert(lo <= d < d + 1 && slides_to(i, d, occupancies, j));
    }
    if slider_attacks(i, lo, d + 1, occupancies, j) {
        let e = choose|e: int| lo <= e < d + 1 && #[trigger] slides_to(i, e, occupancies, j);
        if e < d {
            assert(lo <= e < d && slides_to(i, e, occupancies, j));
        }
    }
    if slider_attacks(i, lo, d, occupancies, j) {
        let e = choose|e: int| lo <= e < d && #[trigger] slides_to(i, e, occupancies, j);
        assert(lo <= e < d + 1 && slides_to(i, e, occupancies, j));
    }
}

proof fn lemma_occupied_bit(occupancies: u64, t: u64)
    requires
        t < 64,
    ensures
        ((1u64 << t) & occupancies != 0) <==> bit_set(occupancies, t),
{
    assert(((1u64 << t) & occupancies != 0) <==> bit_set(occupancies, t)) by (bit_vector)
        requires
            t < 64,
    ;
}

/// The occupancy mask of a sliding piece on `i` moving in directions `lo..hi`.
fn relevant_mask_at(i: usize, lo: usize, hi: usize, edges: &[usize; 8]) -> (r: u64)
    requires
        i < 64,
        lo <= hi <= 8,
        forall|d: int| 0 <= d < 8 ==> (#[trigger] edges@[d]) as int == edge_distance(i as int, d),
    ensures
        forall|j: int| 0 <= j < 64 ==> (#[trigger] bit_set(r, j as u64) <==> relevant_square(i as int, lo as int, hi as int, j)),
{
    proof {
        lemma_zero_bits();
    }
    let mut bb: u64 = 0;
    let mut d = lo;
    while d < hi
        invariant
            i < 64,
            lo <= d <= hi <= 8,
            forall|e: int| 0 <= e < 8 ==> (#[trigger] edges@[e]) as int == edge_distance(i as int, e),
            forall|j: int| 0 <= j < 64 ==> (#[trigger] bit_set(bb, j as u64) <==> dirs_relevant(i as int, lo as int, d as int, j)),
        decreases hi - d,
    {
        let dist = edges[d];
        let mut n: usize = 1;
        while n < dist
            invariant
                i < 64,
                lo <= d < hi <= 8,
                dist as int == edge_distance(i as int, d as int),
                1 <= n,
                n <= dist || n == 1,
                forall|j: int| 0 <= j < 64 ==> (#[trigger] bit_set(bb, j as u64) <==> (dirs_relevant(i as int, lo as int, d as int, j)
                    || ray_prefix(i as int, d as int, j, n as int))),
            decreases dist - n,
        {
            let to = ray_square_exec(i, d, n);
            proof {
                assert forall|j: int| 0 <= j < 64 implies (#[trigger] bit_set(bb | (1u64 << to as u64), j as u64) <==> (dirs_relevant(i as int, lo as int, d as int, j)
                    || ray_prefix(i as int, d as int, j, n + 1))) by {
                    lemma_or_bit(bb, to as u64, j as u64);
                    lemma_ray_prefix_step(i as int, d as int, j, n as int);
                }
            }
            bb = bb | (1u64 << (to as u64));
            n = n + 1;
        }
        proof {
            assert forall|j: int| 0 <= j < 64 implies (#[trigger] bit_set(bb, j as u64) <==> dirs_relevant(i as int, lo as int, d + 1, j)) by {
                lemma_dirs_relevant_step(i as int, lo as int, d as int, j);
                if n == 1 && dist == 0 {
                    assert(!ray_prefix(i as int, d as int, j, 1));
                    assert(!inner_ray_square(i as int, d as int, j));
                } else {
                    assert(n == dist);
                }
            }
        }
        d = d + 1;
    }
    bb
}

pub struct PrecalculatedMoveData {
    pub squares_to_edge: [[usize; 8]; 64],
    pub file_of_square: [u64; 64],
    pub file_in_front_of_pawn: [[u64; 64]; 2],
    pub files_beside_square: [u64; 64],
    pub squares_ahead_of_pawn: [[u64; 64]; 2],
    pub pawn_attacks: [[u64; 64]; 2],
    pub knight_attacks: [u64; 64],
    pub king_attacks: [u64; 64],
    pub bishop_relevant_occupancy_masks: [u64; 64],
    pub rook_relevant_occupancy_masks: [u64; 64],
}

impl PrecalculatedMoveData {
    pub open spec fn wf(&self) -> bool {
        &&& is_edge_table(self.squares_to_edge@)
        &&& is_square_table(self.file_of_square@, |i: int, j: int| same_file_other_square(i, j))
        &&& is_square_table(self.file_in_front_of_pawn@[0]@, |i: int, j: int| file_in_front(0, i, j))
        &&& is_square_table(self.file_in_front_of_pawn@[1]@, |i: int, j: int| file_in_front(1, i, j))
        &&& is_square_table(self.files_beside_square@, |i: int, j: int| adjacent_file(i, j))
        &&& is_square_table(self.squares_ahead_of_pawn@[0]@, |i: int, j: int| ahead_of_pawn(0, i, j))
        &&& is_square_table(self.squares_ahead_of_pawn@[1]@, |i: int, j: int| ahead_of_pawn(1, i, j))
        &&& is_square_table(self.pawn_attacks@[0]@, |i: int, j: int| pawn_capture_step(0, i as u64, j as u64))
        &&& is_square_table(self.pawn_attacks@[1]@, |i: int, j: int| pawn_capture_step(1, i as u64, j as u64))
        &&& is_square_table(self.knight_attacks@, |i: int, j: int| knight_step(i as u64, j as u64))
        &&& is_square_table(self.king_attacks@, |i: int, j: int| king_step(i as u64, j as u64))
        &&& is_square_table(self.bishop_relevant_occupancy_masks@, |i: int, j: int| relevant_square(i, 4, 8, j))
        &&& is_square_table(self.rook_relevant_occupancy_masks@, |i: int, j: int| relevant_square(i, 0, 4, j))
    }

    /// Fills the step tables and masks. Sliding attacks are not looked up in
    /// magic tables: `generate_sliding_moves_bitboard` scans the rays against
    /// the occupancy when they are needed.
    pub fn calculate() -> (r: Self)
        ensures
            r.wf(),
    {
        let mut squares_to_edge = [[0usize; 8]; 64];
        let mut file_of_square = [0u64; 64];
        let mut file_in_front_black = [0u64; 64];
        let mut file_in_front_white = [0u64; 64];
        let mut files_beside_square = [0u64; 64];
        let mut ahead_black = [0u64; 64];
        let mut ahead_white = [0u64; 64];
        let mut pawn_black = [0u64; 64];
        let mut pawn_white = [0u64; 64];
        let mut knight_attacks = [0u64; 64];
        let mut king_attacks = [0u64; 64];
        let mut bishop_masks = [0u64; 64];
        let mut rook_masks = [0u64; 64];
        let mut i: usize = 0;
        while i < 64
            invariant
                i <= 64,
                forall|k: int, d: int| 0 <= k < i && 0 <= d < 8 ==> (#[trigger] squares_to_edge@[k]@[d]) as int == edge_distance(k, d),
                forall|k: int, j: int| 0 <= k < i && 0 <= j < 64 ==> (#[trigger] bit_set(file_of_square@[k], j as u64) <==> same_file_other_square(k, j)),
                forall|k: int, j: int| 0 <= k < i && 0 <= j < 64 ==> (#[trigger] bit_set(file_in_front_black@[k], j as u64) <==> file_in_front(0, k, j)),
                forall|k: int, j: int| 0 <= k < i && 0 <= j < 64 ==> (#[trigger] bit_set(file_in_front_white@[k], j as u64) <==> file_in_front(1, k, j)),
                forall|k: int, j: int| 0 <= k < i && 0 <= j < 64 ==> (#[trigger] bit_set(files_beside_square@[k], j as u64) <==> adjacent_file(k, j)),
                forall|k: int, j: int| 0 <= k < i && 0 <= j < 64 ==> (#[trigger] bit_set(ahead_black@[k], j as u64) <==> ahead_of_pawn(0, k, j)),
                forall|k: int, j: int| 0 <= k < i && 0 <= j < 64 ==> (#[trigger] bit_set(ahead_white@[k], j as u64) <==> ahead_of_pawn(1, k, j)),
                forall|k: int, j: int| 0 <= k < i && 0 <= j < 64 ==> (#[trigger] bit_set(pawn_black@[k], j as u64) <==> pawn_capture_step(0, k as u64, j as u64)),
                forall|k: int, j: int| 0 <= k < i && 0 <= j < 64 ==> (#[trigger] bit_set(pawn_white@[k], j as u64) <==> pawn_capture_step(1, k as u64, j as u64)),
                forall|k: int, j: int| 0 <= k < i && 0 <= j < 64 ==> (#[trigger] bit_set(knight_attacks@[k], j as u64) <==> knight_step(k as u64, j as u64)),
                forall|k: int, j: int| 0 <= k < i && 0 <= j < 64 ==> (#[trigger] bit_set(king_attacks@[k], j as u64) <==> king_step(k as u64, j as u64)),
                forall|k: int, j: int| 0 <= k < i && 0 <= j < 64 ==> (#[trigger] bit_set(bishop_masks@[k], j as u64) <==> relevant_square(k, 4, 8, j)),
                forall|k: int, j: int| 0 <= k < i && 0 <= j < 64 ==> (#[trigger] bit_set(rook_masks@[k], j as u64) <==> relevant_square(k, 0, 4, j)),
            decreases 64 - i,
        {
            let edges = edge_entry(i);
            squares_to_edge[i] = edges;
            file_of_square[i] = file_of_square_at(i);
            file_in_front_black[i] = file_in_front_at(0, i);
            file_in_front_white[i] = file_in_front_at(1, i);
            files_beside_square[i] = files_beside_square_at(i);
            ahead_black[i] = squares_ahead_at(0, i);
            ahead_white[i] = squares_ahead_at(1, i);
            pawn_black[i] = pawn_attacks_at(0, i);
            pawn_white[i] = pawn_attacks_at(1, i);
            knight_attacks[i] = knight_attacks_at(i);
            king_attacks[i] = king_attacks_at(i);
            bishop_masks[i] = relevant_mask_at(i, BISHOP_DIRECTIONS_START, BISHOP_DIRECTIONS_END, &edges);
            rook_masks[i] = relevant_mask_at(i, ROOK_DIRECTIONS_START, ROOK_DIRECTIONS_END, &edges);
            i = i + 1;
        }
        PrecalculatedMoveData {
            squares_to_edge,
            file_of_square,
            file_in_front_of_pawn: [file_in_front_black, file_in_front_white],
            files_beside_square,
            squares_ahead_of_pawn: [ahead_black, ahead_white],
            pawn_attacks: [pawn_black, pawn_white],
            knight_attacks,
            king_attacks,
            bishop_relevant_occupancy_masks: bishop_masks,
            rook_relevant_occupancy_masks: rook_masks,
        }
    }

    /// The squares a sliding piece on `piece_index` attacks in the directions
    /// `start..end`: along each ray up to and including the first occupied square.
    pub fn generate_sliding_moves_bitboard(&self, piece_index: usize, start: usize, end: usize, occupancies: u64) -> (r: u64)
        requires
            is_edge_table(self.squares_to_edge@),
            piece_index < 64,
            start <= end <= 8,
        ensures
            forall|j: int| 0 <= j < 64 ==> (#[trigger] bit_set(r, j as u64) <==> slider_attacks(piece_index as int, start as int, end as int, occupancies, j)),
    {
        proof {
            lemma_zero_bits();
        }
        let i = piece_index;
        let mut result: u64 = 0;
        let mut d = start;
        while d < end
            invariant
                i < 64,
                start <= d <= end <= 8,
                is_edge_table(self.squares_to_edge@),
                forall|j: int| 0 <= j < 64 ==> (#[trigger] bit_set(result, j as u64) <==> slider_attacks(i as int, start as int, d as int, occupancies, j)),
            decreases end - d,
        {
            let dist = self.squares_to_edge[i][d];
            let mut n: usize = 1;
            let mut blocked = false;
            while n <= dist && !blocked
                invariant
                    i < 64,
                    start <= d < end <= 8,
                    dist as int == edge_distance(i as int, d as int),
                    1 <= n <= dist + 1,
                    dist <= 7,
                    !blocked ==> path_clear(i as int, d as int, occupancies, n as int),
                    blocked ==> (n >= 2 && bit_set(occupancies, ray_square(i as int, d as int, n - 1) as u64) && n - 1 <= dist),
                    forall|j: int| 0 <= j < 64 ==> (#[trigger] bit_set(result, j as u64) <==> (slider_attacks(i as int, start as int, d as int, occupancies, j)
                        || slide_prefix(i as int, d as int, occupancies, j, n as int))),
                decreases dist + 1 - n,
            {
                let to = ray_square_exec(i, d, n);
                proof {
                    assert forall|j: int| 0 <= j < 64 implies (#[trigger] bit_set(result | (1u64 << to as u64), j as u64) <==> (slider_attacks(i as int, start as int, d as int, occupancies, j)
                        || slide_prefix(i as int, d as int, occupancies, j, n + 1))) by {
                        lemma_or_bit(result, to as u64, j as u64);
                        lemma_slide_prefix_step(i as int, d as int, occupancies, j, n as int);
                    }
                    lemma_occupied_bit(occupancies, to as u64);
                }
                result = result | (1u64 << (to as u64));
                if (1u64 << (to as u64)) & occupancies != 0 {
                    blocked = true;
                } else {
                    proof {
                        lemma_path_clear_step(i as int, d as int, occupancies, n as int);
                    }
                }
                n = n + 1;
            }
            proof {
                assert forall|j: int| 0 <= j < 64 implies (#[trigger] bit_set(result, j as u64) <==> slider_attacks(i as int, start as int, d + 1, occupancies, j)) by {
                    lemma_slider_step(i as int, start as int, d as int, occupancies, j);
                    if blocked {
                        lemma_slide_blocked(i as int, d as int, occupancies, j, n - 1);
                    } else {
                        assert(n == dist + 1);
                    }
                }
            }
            d = d + 1;
        }
        result
    }
}

} // verus!
