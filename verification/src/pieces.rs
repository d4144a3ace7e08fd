//! Piece encoding used by the bitboard board: pieces `0..6` are black
//! (pawn, knight, bishop, rook, queen, king), `6..12` are the white ones,
//! and `12` means "no piece".
use vstd::prelude::*;

verus! {

pub const PAWN: usize = 0;
pub const KNIGHT: usize = 1;
pub const BISHOP: usize = 2;
pub const ROOK: usize = 3;
pub const QUEEN: usize = 4;
pub const KING: usize = 5;

pub const BLACK_PAWN: usize = 0;
pub const BLACK_KNIGHT: usize = 1;
pub const BLACK_BISHOP: usize = 2;
pub const BLACK_ROOK: usize = 3;
pub const BLACK_QUEEN: usize = 4;
pub const BLACK_KING: usize = 5;

pub const WHITE_PAWN: usize = 6;
pub const WHITE_KNIGHT: usize = 7;
pub const WHITE_BISHOP: usize = 8;
pub const WHITE_ROOK: usize = 9;
pub const WHITE_QUEEN: usize = 10;
pub const WHITE_KING: usize = 11;

pub const NO_PIECE: usize = 12;
pub const PIECE_COUNT: usize = 12;

/// The piece types a pawn may promote to (knight, bishop, rook, queen).
pub const PROMOTABLE: [u8; 4] = [1, 2, 3, 4];

/// A move flag or piece type that names a promotion target.
pub open spec fn is_promotable(flag: int) -> bool {
    1 <= flag <= 4
}

/// Returns whether `flag` is one of the entries of `PROMOTABLE`.
pub fn promotable_contains(flag: u8) -> (r: bool)
    ensures
        r == is_promotable(flag as int),
{
    let table = PROMOTABLE;
    let mut i: usize = 0;
    while i < 4
        invariant
            i <= 4,
            table@ == seq![1u8, 2u8, 3u8, 4u8],
            forall|j: int| 0 <= j < i ==> table@[j] != flag,
        decreases 4 - i,
    {
        if table[i] == flag {
            return true;
        }
        i = i + 1;
    }
    false
}

pub open spec fn spec_is_piece_white(piece: int) -> bool {
    piece > BLACK_KING
}

pub open spec fn spec_piece_type(piece: int) -> int {
    piece % 6
}

pub fn is_piece_white(piece: usize) -> (r: bool)
    ensures
        r == spec_is_piece_white(piece as int),
{
    piece > BLACK_KING
}

pub fn get_piece_type(piece: usize) -> (r: usize)
    ensures
        r == spec_piece_type(piece as int),
{
    piece % 6
}

pub open spec fn spec_build_piece(is_white: bool, piece_type: int) -> int {
    piece_type + if is_white { 6int } else { 0int }
}

pub fn build_piece(is_white: bool, piece_type: usize) -> (r: usize)
    requires
        is_white ==> piece_type + 6 <= usize::MAX,
    ensures
        r == spec_build_piece(is_white, piece_type as int),
{
    piece_type + (if is_white { 6 } else { 0 })
}

/// The FEN letter of each piece; `' '` for anything that is not a piece.
pub open spec fn spec_piece_to_char(piece: int) -> char {
    if piece == 0 { 'p' }
    else if piece == 1 { 'n' }
    else if piece == 2 { 'b' }
    else if piece == 3 { 'r' }
    else if piece == 4 { 'q' }
    else if piece == 5 { 'k' }
    else if piece == 6 { 'P' }
    else if piece == 7 { 'N' }
    else if piece == 8 { 'B' }
    else if piece == 9 { 'R' }
    else if piece == 10 { 'Q' }
    else if piece == 11 { 'K' }
    else { ' ' }
}

/// The piece that a FEN letter stands for; `NO_PIECE` for any other character.
pub open spec fn spec_char_to_piece(c: char) -> int {
    if c == 'p' { 0 }
    else if c == 'n' { 1 }
    else if c == 'b' { 2 }
    else if c == 'r' { 3 }
    else if c == 'q' { 4 }
    else if c == 'k' { 5 }
    else if c == 'P' { 6 }
    else if c == 'N' { 7 }
    else if c == 'B' { 8 }
    else if c == 'R' { 9 }
    else if c == 'Q' { 10 }
    else if c == 'K' { 11 }
    else { 12 }
}

pub fn char_to_piece(piece: char) -> (r: usize)
    ensures
        r == spec_char_to_piece(piece),
{
    match piece {
        'p' => BLACK_PAWN,
        'n' => BLACK_KNIGHT,
        'b' => BLACK_BISHOP,
        'r' => BLACK_ROOK,
        'q' => BLACK_QUEEN,
        'k' => BLACK_KING,
        'P' => WHITE_PAWN,
        'N' => WHITE_KNIGHT,
        'B' => WHITE_BISHOP,
        'R' => WHITE_ROOK,
        'Q' => WHITE_QUEEN,
        'K' => WHITE_KING,
        _ => NO_PIECE,
    }
}

pub fn piece_to_char(piece: usize) -> (r: char)
    ensures
        r == spec_piece_to_char(piece as int),
{
    match piece {
        0 => 'p',
        1 => 'n',
        2 => 'b',
        3 => 'r',
        4 => 'q',
        5 => 'k',
        6 => 'P',
        7 => 'N',
        8 => 'B',
        9 => 'R',
        10 => 'Q',
        11 => 'K',
        _ => ' ',
    }
}

/// Reading back the letter of a piece gives the piece again, and every piece
/// letter names the piece whose letter it is.
pub proof fn lemma_piece_char_round_trip(piece: int, c: char)
    ensures
        0 <= piece < 12 ==> spec_char_to_piece(spec_piece_to_char(piece)) == piece,
        spec_char_to_piece(c) != NO_PIECE ==> spec_piece_to_char(spec_char_to_piece(c)) == c,
{
}

/// A piece is rebuilt from its colour and its type, and building a piece from a
/// colour and a type gives back that colour and type.
pub proof fn lemma_build_piece_round_trip(piece: int, is_white: bool, piece_type: int)
    ensures
        0 <= piece < 12 ==> spec_build_piece(spec_is_piece_white(piece), spec_piece_type(piece))
            == piece,
        0 <= piece_type < 6 ==> spec_is_piece_white(spec_build_piece(is_white, piece_type))
            == is_white && spec_piece_type(spec_build_piece(is_white, piece_type)) == piece_type,
{
}

} // verus!
