//! Square names, move-string validation, bit scanning and mate scores.
use vstd::prelude::*;
use crate::bits::lemma_clear_bit;
use vstd::std_specs::bits::u64_trailing_zeros;

verus! {

/// The score of a mate at the root; a mate `n` plies away scores `CHECKMATE_EVAL - n`.
pub const CHECKMATE_EVAL: i32 = 100000;

/// The file letter (`'a'..='h'`) of file `f` in `0..8`.
pub open spec fn file_char(f: int) -> char {
    (97 + f) as char
}

/// The rank digit of row `r` in `0..8`; row 0 is rank 8 (the top of the board).
pub open spec fn rank_char(r: int) -> char {
    (56 - r) as char
}

/// The algebraic name of square `i` (0 = a8, 7 = h8, 56 = a1, 63 = h1).
pub open spec fn square_name(i: int) -> Seq<char> {
    seq![file_char(i % 8), rank_char(i / 8)]
}

pub open spec fn is_file_char(c: char) -> bool {
    97 <= (c as int) <= 104
}

pub open spec fn is_rank_char(c: char) -> bool {
    49 <= (c as int) <= 56
}

/// Whether two characters spell the name of a square.
pub open spec fn is_square_chars(f: char, r: char) -> bool {
    is_file_char(f) && is_rank_char(r)
}

/// The square named by `f` and `r`, assuming they name one.
pub open spec fn square_of_chars(f: char, r: char) -> int {
    ((f as int) - 97) + (56 - (r as int)) * 8
}

/// The index of the square whose name is `s`, or 0 when `s` names no square.
pub open spec fn spec_coordinate_to_index(s: Seq<char>) -> int {
    if s.len() == 2 && is_square_chars(s[0], s[1]) {
        square_of_chars(s[0], s[1])
    } else {
        0
    }
}

/// Every square name is read back as its square, and every name that is read
/// as a square is that square's name.
pub proof fn lemma_square_name_round_trip(i: int, s: Seq<char>)
    ensures
        0 <= i < 64 ==> spec_coordinate_to_index(square_name(i)) == i,
        s.len() == 2 && is_square_chars(s[0], s[1]) ==> (0 <= spec_coordinate_to_index(s) < 64
            && square_name(spec_coordinate_to_index(s)) =~= s),
{
    if 0 <= i < 64 {
        let s2 = square_name(i);
        assert(s2[0] == file_char(i % 8));
        assert(s2[1] == rank_char(i / 8));
    }
    if s.len() == 2 && is_square_chars(s[0], s[1]) {
        let k = spec_coordinate_to_index(s);
        let f = (s[0] as int) - 97;
        let r = 56 - (s[1] as int);
        assert(k == f + r * 8);
        assert(k % 8 == f && k / 8 == r) by (nonlinear_arith)
            requires
                k == f + r * 8,
                0 <= f < 8,
                0 <= r < 8,
        ;
        assert(file_char(k % 8) == s[0]);
        assert(rank_char(k / 8) == s[1]);
    }
}

/// Returns the index of the square named `coordinate`, or 0 when it names no square.
pub fn coordinate_to_index(coordinate: &str) -> (r: u8)
    ensures
        r as int == spec_coordinate_to_index(coordinate@),
        r < 64,
{
    let n = coordinate.unicode_len();
    if n != 2 {
        return 0;
    }
    let f = coordinate.get_char(0);
    let rk = coordinate.get_char(1);
    let fv = f as u32;
    let rv = rk as u32;
    if 97 <= fv && fv <= 104 && 49 <= rv && rv <= 56 {
        ((fv - 97) + (56 - rv) * 8) as u8
    } else {
        0
    }
}

/// The one-letter string of file `k`.
fn file_str(k: u8) -> (r: &'static str)
    requires
        k < 8,
    ensures
        r@ == seq![file_char(k as int)],
{
    match k {
        0 => {
            proof {
                reveal_strlit("a");
            }
            "a"
        },
        1 => {
            proof {
                reveal_strlit("b");
            }
            "b"
        },
        2 => {
            proof {
                reveal_strlit("c");
            }
            "c"
        },
        3 => {
            proof {
                reveal_strlit("d");
            }
            "d"
        },
        4 => {
            proof {
                reveal_strlit("e");
            }
            "e"
        },
        5 => {
            proof {
                reveal_strlit("f");
            }
            "f"
        },
        6 => {
            proof {
                reveal_strlit("g");
            }
            "g"
        },
        _ => {
            proof {
                reveal_strlit("h");
            }
            "h"
        },
    }
}

/// The one-digit string of row `k` (row 0 is rank 8).
pub(crate) fn rank_str(k: u8) -> (r: &'static str)
    requires
        k < 8,
    ensures
        r@ == seq![rank_char(k as int)],
{
    match k {
        0 => {
            proof {
                reveal_strlit("8");
            }
            "8"
        },
        1 => {
            proof {
                reveal_strlit("7");
            }
            "7"
        },
        2 => {
            proof {
                reveal_strlit("6");
            }
            "6"
        },
        3 => {
            proof {
                reveal_strlit("5");
            }
            "5"
        },
        4 => {
            proof {
                reveal_strlit("4");
            }
            "4"
        },
        5 => {
            proof {
                reveal_strlit("3");
            }
            "3"
        },
        6 => {
            proof {
                reveal_strlit("2");
            }
            "2"
        },
        _ => {
            proof {
                reveal_strlit("1");
            }
            "1"
        },
    }
}

/// The algebraic name of square `i`, e.g. `"e4"`.
pub fn square_coordinates(i: u8) -> (r: String)
    requires
        i < 64,
    ensures
        r@ == square_name(i as int),
{
    let mut s = String::from_str(file_str(i % 8));
    s.append(rank_str(i / 8));
    proof {
        assert(s@ =~= square_name(i as int));
    }
    s
}

/// ASCII lowercase of a character; other characters are left as they are.
pub open spec fn ascii_lower(c: char) -> char {
    if 65 <= (c as int) <= 90 {
        ((c as int) + 32) as char
    } else {
        c
    }
}

pub fn lower_char(c: char) -> (r: char)
    ensures
        r == ascii_lower(c),
{
    let v = c as u32;
    if 65 <= v && v <= 90 {
        let w: u32 = v + 32;
        let lowered = (w as u8) as char;
        lowered
    } else {
        c
    }
}

/// Whether a (lowercased) character names a promotion piece: n, b, r or q.
pub open spec fn is_promotion_letter(c: char) -> bool {
    c == 'n' || c == 'b' || c == 'r' || c == 'q'
}

/// A move string is valid when its first four characters name two squares
/// (ignoring case) and a fifth character, if there is one, names a promotion
/// piece (ignoring case).
pub open spec fn spec_move_str_is_valid(s: Seq<char>) -> bool {
    &&& s.len() >= 4
    &&& is_square_chars(ascii_lower(s[0]), ascii_lower(s[1]))
    &&& is_square_chars(ascii_lower(s[2]), ascii_lower(s[3]))
    &&& s.len() > 4 ==> is_promotion_letter(ascii_lower(s[4]))
}

pub fn move_str_is_valid(move_str: &str) -> (r: bool)
    ensures
        r == spec_move_str_is_valid(move_str@),
{
    let n = move_str.unicode_len();
    if n < 4 {
        return false;
    }
    let c0 = lower_char(move_str.get_char(0)) as u32;
    let c1 = lower_char(move_str.get_char(1)) as u32;
    let c2 = lower_char(move_str.get_char(2)) as u32;
    let c3 = lower_char(move_str.get_char(3)) as u32;
    if !(97 <= c0 && c0 <= 104 && 49 <= c1 && c1 <= 56) {
        return false;
    }
    if !(97 <= c2 && c2 <= 104 && 49 <= c3 && c3 <= 56) {
        return false;
    }
    if n > 4 {
        let p = lower_char(move_str.get_char(4));
        if !(p == 'n' || p == 'b' || p == 'r' || p == 'q') {
            return false;
        }
    }
    true
}

/// Bit `i` of `x` is set.
pub open spec fn bit_set(x: u64, i: u64) -> bool {
    (x >> i) & 1u64 == 1u64
}

proof fn lemma_clear_lowest_bit(x: u64, r: u64)
    requires
        r < 64,
        (x >> r) & 1u64 == 1u64,
        x << ((64 - r) as u64) == 0,
    ensures
        x & ((x - 1) as u64) == x & !(1u64 << r),
        x != 0,
{
    assert(x & ((x - 1) as u64) == x & !(1u64 << r) && x != 0) by (bit_vector)
        requires
            r < 64,
            (x >> r) & 1u64 == 1u64,
            x << ((64 - r) as u64) == 0,
    ;
}

/// Removes the lowest set bit of a non-empty bitboard and returns its index.
pub fn pop_lsb(bitboard: &mut u64) -> (r: u8)
    requires
        *old(bitboard) != 0,
    ensures
        r as u32 == u64_trailing_zeros(*old(bitboard)),
        r < 64,
        bit_set(*old(bitboard), r as u64),
        forall|j: u64| j < r ==> !bit_set(*old(bitboard), j),
        *final(bitboard) == *old(bitboard) & !(1u64 << r),
        *final(bitboard) < *old(bitboard),
        forall|j: u64| j < 64 ==> #[trigger] bit_set(*final(bitboard), j) == (bit_set(*old(bitboard), j) && j != r as u64),
{
    let x = *bitboard;
    let i = x.trailing_zeros();
    proof {
        vstd::std_specs::bits::axiom_u64_trailing_zeros(x);
        lemma_clear_lowest_bit(x, i as u64);
        lemma_clear_bit(x, i as u64, i as u64);
        assert forall|j: u64| j < 64 implies #[trigger] bit_set(x & !(1u64 << (i as u64)), j) == (bit_set(x, j) && j != i as u64) by {
            lemma_clear_bit(x, i as u64, j);
        }
    }
    *bitboard = x & (x - 1);
    i as u8
}

/// The index of the lowest set bit, or 64 for an empty bitboard.
pub fn get_lsb(bitboard: u64) -> (r: u8)
    ensures
        r as u32 == u64_trailing_zeros(bitboard),
        r <= 64,
        bitboard == 0 <==> r == 64,
        r < 64 ==> bit_set(bitboard, r as u64),
        forall|j: u64| j < r ==> !bit_set(bitboard, j),
{
    proof {
        vstd::std_specs::bits::axiom_u64_trailing_zeros(bitboard);
    }
    bitboard.trailing_zeros() as u8
}

pub open spec fn abs_i32(x: i32) -> int {
    if x < 0 { -x } else { x as int }
}

/// A score is a mate score when it lies within 100 plies of `CHECKMATE_EVAL`.
pub fn evaluation_is_mate(evaluation: i32) -> (r: bool)
    requires
        evaluation != i32::MIN,
    ensures
        r == (abs_i32(evaluation) > CHECKMATE_EVAL - 100),
{
    let a = if evaluation < 0 { -evaluation } else { evaluation };
    a > CHECKMATE_EVAL - 100
}

/// The number of plies to mate encoded in a mate score, truncated to a byte.
pub fn ply_from_mate(evaluation: i32) -> (r: u8)
    requires
        evaluation != i32::MIN,
    ensures
        r == ((CHECKMATE_EVAL - abs_i32(evaluation)) as u8),
{
    let a = if evaluation < 0 { -evaluation } else { evaluation };
    (CHECKMATE_EVAL - a) as u8
}

/// The characters of a string.
pub fn chars_of(s: &str) -> (r: Vec<char>)
    ensures
        r@ == s@,
{
    let n = s.unicode_len();
    let mut r: Vec<char> = Vec::new();
    let mut i: usize = 0;
    while i < n
        invariant
            i <= n,
            n == s@.len(),
            r@ == s@.take(i as int),
        decreases n - i,
    {
        r.push(s.get_char(i));
        i = i + 1;
        proof {
            assert(r@ =~= s@.take(i as int));
        }
    }
    proof {
        assert(r@ =~= s@);
    }
    r
}

/// Appends `c` to `s` (`String::push`).
#[verifier::external_body]
pub(crate) fn push_char(s: &mut String, c: char)
    ensures
        final(s)@ == old(s)@.push(c),
{
    s.push(c);
}

/// The string of the characters `chars`.
pub fn string_of(chars: &Vec<char>) -> (r: String)
    ensures
        r@ == chars@,
{
    let mut r = String::new();
    let mut i: usize = 0;
    while i < chars.len()
        invariant
            i <= chars@.len(),
            r@ == chars@.take(i as int),
        decreases chars@.len() - i,
    {
        push_char(&mut r, chars[i]);
        i = i + 1;
        proof {
            assert(r@ =~= chars@.take(i as int));
        }
    }
    proof {
        assert(chars@.take(chars@.len() as int) =~= chars@);
    }
    r
}
} // verus!
