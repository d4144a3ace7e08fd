//! The move record used throughout the engine, with its packed 16-bit form
//! (`flag:4 | from:6 | to:6`) and its coordinate notation (`e2e4`, `a7a8q`).
use vstd::prelude::*;
use crate::pieces::{
    NO_PIECE, char_to_piece, get_piece_type, piece_to_char, promotable_contains,
    spec_char_to_piece, spec_piece_to_char, is_promotable,
};
use crate::utils::{coordinate_to_index, square_coordinates, square_name, spec_coordinate_to_index};

verus! {

// Flags 1, 2, 3, 4 name the piece type a pawn promotes to.
pub const DOUBLE_PAWN_PUSH_FLAG: u8 = 5;
pub const EN_PASSANT_FLAG: u8 = 6;
pub const SHORT_CASTLE_FLAG: u8 = 7;
pub const LONG_CASTLE_FLAG: u8 = 8;

#[derive(Copy, Clone, Debug)]
pub struct MoveData {
    pub flag: u8,
    pub capture: u8,
    pub piece: u8,
    pub from: u8,
    pub to: u8,
}

pub open spec fn spec_null_move() -> MoveData {
    MoveData { flag: 0, capture: 12, piece: 12, from: 0, to: 0 }
}

/// Two moves are the same move when flag, origin and destination agree; the
/// moving and the captured piece are not compared.
pub open spec fn same_move(a: MoveData, b: MoveData) -> bool {
    a.flag == b.flag && a.from == b.from && a.to == b.to
}

/// The move that stands for "no move".
pub fn null_move() -> (r: MoveData)
    ensures
        r == spec_null_move(),
{
    MoveData { flag: 0, capture: NO_PIECE as u8, piece: NO_PIECE as u8, from: 0, to: 0 }
}

impl PartialEq for MoveData {
    fn eq(&self, other: &MoveData) -> (r: bool) {
        self.flag == other.flag && self.from == other.from && self.to == other.to
    }
}

impl vstd::std_specs::cmp::PartialEqSpecImpl for MoveData {
    open spec fn obeys_eq_spec() -> bool {
        true
    }

    open spec fn eq_spec(&self, other: &MoveData) -> bool {
        self.flag == other.flag && self.from == other.from && self.to == other.to
    }
}

impl Default for MoveData {
    fn default() -> (r: MoveData)
        ensures
            r == spec_null_move(),
    {
        null_move()
    }
}

/// Whether two moves are the same move (see `same_move`).
pub fn moves_equal(a: &MoveData, b: &MoveData) -> (r: bool)
    ensures
        r == same_move(*a, *b),
{
    a.flag == b.flag && a.from == b.from && a.to == b.to
}

/// The packed form: flag in bits 12..16, origin in bits 6..12, destination in bits 0..6.
pub open spec fn spec_to_binary(m: MoveData) -> u16 {
    ((m.flag as u16) << 12u16) | ((m.from as u16) << 6u16) | (m.to as u16)
}

pub open spec fn spec_from_binary(b: u16) -> MoveData {
    MoveData {
        flag: (b / 4096) as u8,
        capture: 12,
        piece: 12,
        from: ((b / 64) % 64) as u8,
        to: (b % 64) as u8,
    }
}

/// A move whose fields fit their slots of the packed form.
pub open spec fn fits_binary(m: MoveData) -> bool {
    m.flag < 16 && m.from < 64 && m.to < 64
}

proof fn lemma_to_binary_arith(flag: u8, from: u8, to: u8)
    requires
        flag < 16,
        from < 64,
        to < 64,
    ensures
        ((flag as u16) << 12u16) | ((from as u16) << 6u16) | (to as u16) == (flag as int) * 4096 + (
        from as int) * 64 + (to as int),
{
    assert(((flag as u16) << 12u16) | ((from as u16) << 6u16) | (to as u16) == (flag as u16) * 4096
        + (from as u16) * 64 + (to as u16)) by (bit_vector)
        requires
            flag < 16,
            from < 64,
            to < 64,
    ;
}

proof fn lemma_from_binary_fields(b: u16)
    ensures
        (b & 0xF000u16) >> 12u16 == b / 4096,
        (b & 0x0FC0u16) >> 6u16 == (b / 64) % 64,
        b & 0x003Fu16 == b % 64,
        b == (b / 4096) * 4096 + ((b / 64) % 64) * 64 + b % 64,
{
    assert((b & 0xF000u16) >> 12u16 == b / 4096) by (bit_vector);
    assert((b & 0x0FC0u16) >> 6u16 == (b / 64) % 64) by (bit_vector);
    assert(b & 0x003Fu16 == b % 64) by (bit_vector);
    assert(b == (b / 4096) * 4096 + ((b / 64) % 64) * 64 + b % 64) by (bit_vector);
}

impl MoveData {
    /// Unpacks a 16-bit move; the moving and captured pieces are unknown (`NO_PIECE`).
    pub fn from_binary(binary: u16) -> (r: MoveData)
        ensures
            r == spec_from_binary(binary),
    {
        proof {
            lemma_from_binary_fields(binary);
        }
        MoveData {
            flag: ((binary & 0xF000u16) >> 12u16) as u8,
            capture: NO_PIECE as u8,
            piece: NO_PIECE as u8,
            from: ((binary & 0x0FC0u16) >> 6u16) as u8,
            to: (binary & 0x003Fu16) as u8,
        }
    }

    /// Packs flag, origin and destination into 16 bits.
    pub fn to_binary(&self) -> (r: u16)
        ensures
            r == spec_to_binary(*self),
            fits_binary(*self) ==> r == (self.flag as int) * 4096 + (self.from as int) * 64 + (
            self.to as int),
    {
        let mut result: u16 = 0;
        result = result | ((self.flag as u16) << 12u16);
        result = result | ((self.from as u16) << 6u16);
        result = result | (self.to as u16);
        proof {
            let f = self.flag as u16;
            let o = self.from as u16;
            let t = self.to as u16;
            assert(((0u16 | (f << 12u16)) | (o << 6u16)) | t == (f << 12u16) | (o << 6u16) | t)
                by (bit_vector);
            if fits_binary(*self) {
                lemma_to_binary_arith(self.flag, self.from, self.to);
            }
        }
        result
    }
}

/// The move that a coordinate string such as `e2e4` or `a7a8q` describes: the
/// first two characters name the origin, the next two the destination, and a
/// fifth character, if any, the promotion piece (its piece type becomes the flag).
pub open spec fn spec_from_coordinates(s: Seq<char>) -> MoveData {
    MoveData {
        flag: if s.len() > 4 { (spec_char_to_piece(s[4]) % 6) as u8 } else { 0 },
        capture: 12,
        piece: 12,
        from: spec_coordinate_to_index(s.subrange(0, 2)) as u8,
        to: spec_coordinate_to_index(s.subrange(2, 4)) as u8,
    }
}

/// The coordinate string of a move: origin, destination, and the letter of the
/// promotion piece when the flag names one.
pub open spec fn spec_to_coordinates(m: MoveData) -> Seq<char> {
    square_name(m.from as int) + square_name(m.to as int) + if is_promotable(m.flag as int) {
        seq![spec_piece_to_char(m.flag as int)]
    } else {
        Seq::<char>::empty()
    }
}

/// The first four characters of `s` are one-byte (ASCII) characters.
pub open spec fn ascii_prefix4(s: Seq<char>) -> bool {
    s.len() >= 4 && forall|i: int| 0 <= i < 4 ==> (#[trigger] s[i] as int) < 128
}

impl MoveData {
    pub fn from_coordinates(coordinates: String) -> (r: MoveData)
        requires
            ascii_prefix4(coordinates@),
        ensures
            r == spec_from_coordinates(coordinates@),
    {
        let s = coordinates.as_str();
        let n = s.unicode_len();
        let flag: u8 = if n > 4 {
            get_piece_type(char_to_piece(s.get_char(4))) as u8
        } else {
            0
        };
        let from = coordinate_to_index(s.substring_char(0, 2));
        let to = coordinate_to_index(s.substring_char(2, 4));
        MoveData { flag, capture: NO_PIECE as u8, piece: NO_PIECE as u8, from, to }
    }

    pub fn to_coordinates(&self) -> (r: String)
        requires
            self.from < 64,
            self.to < 64,
        ensures
            r@ == spec_to_coordinates(*self),
    {
        let mut result = square_coordinates(self.from);
        let dest = square_coordinates(self.to);
        result.append(dest.as_str());
        if promotable_contains(self.flag) {
            let c = piece_to_char(self.flag as usize);
            let letter: &str = if c == 'n' {
                proof { reveal_strlit("n"); }
                "n"
            } else if c == 'b' {
                proof { reveal_strlit("b"); }
                "b"
            } else if c == 'r' {
                proof { reveal_strlit("r"); }
                "r"
            } else {
                proof { reveal_strlit("q"); }
                "q"
            };
            result.append(letter);
        }
        proof {
            assert(result@ =~= spec_to_coordinates(*self));
        }
        result
    }
}

/// Writing a move in coordinates and reading it back gives the same move, for
/// every move on the board whose flag is plain or a promotion.
pub proof fn lemma_coordinates_round_trip(m: MoveData)
    requires
        m.from < 64,
        m.to < 64,
        m.flag <= 4,
    ensures
        ascii_prefix4(spec_to_coordinates(m)),
        same_move(spec_from_coordinates(spec_to_coordinates(m)), m),
{
    let s = spec_to_coordinates(m);
    crate::utils::lemma_square_name_round_trip(m.from as int, s);
    crate::utils::lemma_square_name_round_trip(m.to as int, s);
    assert(s.subrange(0, 2) =~= square_name(m.from as int));
    assert(s.subrange(2, 4) =~= square_name(m.to as int));
    assert(ascii_prefix4(s));
}

/// Packing a move and unpacking it again gives the same move.
pub proof fn lemma_binary_round_trip(m: MoveData)
    requires
        fits_binary(m),
    ensures
        same_move(spec_from_binary(spec_to_binary(m)), m),
{
    lemma_to_binary_arith(m.flag, m.from, m.to);
    let b = spec_to_binary(m);
    let v = (m.flag as int) * 4096 + (m.from as int) * 64 + (m.to as int);
    assert(b / 4096 == m.flag && (b / 64) % 64 == m.from && b % 64 == m.to) by (nonlinear_arith)
        requires
            b == v,
            v == (m.flag as int) * 4096 + (m.from as int) * 64 + (m.to as int),
            m.flag < 16,
            m.from < 64,
            m.to < 64,
    ;
}

/// Unpacking a packed move and packing it again gives back the same 16 bits.
pub proof fn lemma_binary_unpack_pack(b: u16)
    ensures
        spec_to_binary(spec_from_binary(b)) == b,
{
    lemma_from_binary_fields(b);
    let m = spec_from_binary(b);
    assert(fits_binary(m));
    lemma_to_binary_arith(m.flag, m.from, m.to);
}

} // verus!
