//! The mailbox piece encoding used by `Game`: bits 0..3 hold the piece type
//! (1 = pawn .. 6 = king, 0 = empty square) and bit 3 is set for white pieces.
use vstd::prelude::*;

verus! {

pub const PAWN: u8 = 0b0001;
pub const KNIGHT: u8 = 0b0010;
pub const BISHOP: u8 = 0b0011;
pub const ROOK: u8 = 0b0100;
pub const QUEEN: u8 = 0b0101;
pub const KING: u8 = 0b0110;

pub const WHITE: u8 = 0b1000;
pub const BLACK: u8 = 0b0000;

/// The piece types a pawn may promote to (knight, bishop, rook, queen).
pub const PROMOTABLE_PIECES: [u8; 4] = [2, 3, 4, 5];

} // verus!
