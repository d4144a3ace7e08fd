//! Castling-right bits and the squares that must be free for castling.
use vstd::prelude::*;

verus! {

pub const WHITE_CASTLE_LONG: u8 = 0b1000;
pub const WHITE_CASTLE_SHORT: u8 = 0b0100;
pub const BLACK_CASTLE_SHORT: u8 = 0b0010;
pub const BLACK_CASTLE_LONG: u8 = 0b0001;

/// Indexed by colour (0 = black, 1 = white).
pub const SHORT_CASTLING_RIGHTS: [u8; 2] = [0b0010, 0b0100];
pub const LONG_CASTLING_RIGHTS: [u8; 2] = [0b0001, 0b1000];

pub const ALL_WHITE_CASTLING_RIGHTS: u8 = 0b1100;
pub const ALL_BLACK_CASTLING_RIGHTS: u8 = 0b0011;

/// Squares between king and rook on the short side (f8, g8 / f1, g1).
pub const SHORT_CASTLE_MASK: [u64; 2] = [(1u64 << 5u64) | (1u64 << 6u64), (1u64 << 61u64) | (1u64 << 62u64)];

/// Squares the king crosses on the long side (c8, d8 / c1, d1).
pub const LONG_CASTLE_MASK: [u64; 2] = [(1u64 << 2u64) | (1u64 << 3u64), (1u64 << 58u64) | (1u64 << 59u64)];

/// The b-file square that must also be empty for long castling (b8 / b1).
pub const EXTRA_LONG_CASTLE_SQUARE_CHECK: [u64; 2] = [1u64 << 1u64, 1u64 << 57u64];

} // verus!
