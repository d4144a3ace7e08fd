//! A small opening book: lines of moves in coordinate notation, from which a
//! random continuation of the moves played so far is picked.
use vstd::prelude::*;
use vstd::utf8::encode_utf8;
use crate::move_data::{MoveData, ascii_prefix4, spec_from_coordinates, null_move, spec_null_move};
use crate::fen::{split_on, split_chars, chars_contain};
use crate::utils::{chars_of, string_of};
use rand::seq::SliceRandom;

verus! {

pub struct OpeningBook {
    pub lines: Vec<&'static str>,
}

/// The book's lines; a move marked with `X` is never played from the book.
pub open spec fn book_lines() -> Seq<&'static str> {
    seq![
        "e2e4 e7e5 g1f3 b8c6 f1c4 g8f6 d2d3 f8c5 e1g1",
        "e2e4 e7e5 g1f3 b8c6 f1c4 g8f6 d2d3 f8c5 c1g5 h7h6",
        "e2e4 e7e5 g1f3 b8c6 d2d4 e5d4 f3d4 g8f6 d4c6 b7c6 e4e5 d8e7 d1e2 f6d5",
        "e2e4 c7c6 d2d4 d7d5 b1c3 d5e4 c3e4 g8f6 e4f6 e7f6 g1f3 f8d6 f1e2 e8g8 e1g1 f8e8 c2c4",
        "e2e4 c7c6 d2d4 d7d5 e4d5 c6d5 c2c4 g8f6 b1c3 b8c6 b1f3 e7e6 c4c5 f8e7 f1d3 e8g8 a2a3 b7b6 b2b4 b6c5 b4c5 e6e5",
        "e2e4 c7c6 d2d4 d7d5 e4e5 c8f5 g1f3 e7e6 f1e2 g8e7 e1g1 c6c5 d4c5 b8d7 c1e3 e7c6",
        "e2e4 c7c6 g1f3 d7d5 b1c3 c8g4 f1e2 g8f6 h2h3 g4f3 e2f3 d5e4 c3e4 e7e6 d2d4",
        "e2e4 e7e5 g1f3 b8c6 f1b5 a7a6 b5a4 g8f6 e1g1 f8c5",
        "e2e4 e7e5 g1f3 b8c6 f1b5 a7a6 b5a4 b7b5 a4b3 g7g6 e1g1 f8g7",
        "d2d4 d7d5 b1c3 g8f6 c1f4 c8f5",
        "d2d4 d7d5 b1c3 g8f6 c1g5 b8d7 g1f3 g7g6 e2e3 f8g7",
        "d2d4 d7d5 c1f4 c7c5 e2e3 e7e6 c2c3 g8f6 b1d2 f8d6 d4c5 d6c5 f1d3 e8g8 g1f3 f8e8 e1g1",
        "d2d4 d7d5 c2c4 e7e6 b1c3 c7c6 c1f4 d5c4 e2e3 b7b5 a2a4 d8b6 g1f3 g8f6",
        "d2d4 d7d5 c2c4 c7c6 b1c3 d5c4 e2e4 b7b5 a2a4 d8b6",
        "d2d4 d7d5 c2c4 c7c6 g1f3 d5c4 e2e3 c8e6 b1c3 b7b5 a2a4 b5b4 c3e2 e6d5 e2g3 g8f6 c1d2",
        "d2d4 g8f6 c2c4 e7e6 b1c3 f8b4 e2e3 e8g8 f1d3 d7d5 g1e2 d5c4 d3c4 e6e5 e1g1 b8c6",
        "d2d4 g8f6 c2c4 d7d5 g1f3 e7e6 b1c3 f8e7 c1f4 e8g8 e2e3 b7b6 f1d3 d5c4 d3c4 c8b7 e1g1",
        "e2e4 c7c5 g1f3 d7d6 d2d4 c5d4 f3d4 g8f6 b1c3 b8c6 f1c4 e7e6 c1e3 c8d7 d1e2 a7a6",
        "Xc2c4 e7e5 b1c3 g8f6",
        "e2e4 c7c5 Xb1c3 b8c6 f1b5 c6d4 b5c4 a7a6 g1f3 b7b5 c4e2 c8b7 e1g1 e7e6 d2d3 d4e2 d1e2",
    ]
}

/// `s` with every `X` taken out.
pub open spec fn without_x(s: Seq<char>) -> Seq<char>
    decreases s.len(),
{
    if s.len() == 0 {
        s
    } else if s.last() == 'X' {
        without_x(s.drop_last())
    } else {
        without_x(s.drop_last()).push(s.last())
    }
}

/// How many times `c` occurs in `s`.
pub open spec fn count_char(s: Seq<char>, c: char) -> int
    decreases s.len(),
{
    if s.len() == 0 {
        0
    } else {
        count_char(s.drop_last(), c) + if s.last() == c { 1int } else { 0int }
    }
}

/// The number of moves in a space-separated move list (0 for the empty list).
pub open spec fn moves_played(moves: Seq<char>) -> int {
    if moves.len() == 0 { 0 } else { count_char(moves, ' ') + 1 }
}

/// The book line continues the moves played: without its `X` marks it starts
/// with them, and (in bytes) it is longer than them and the space after them.
pub open spec fn line_matches(line: Seq<char>, moves: Seq<char>) -> bool {
    let stripped = without_x(line);
    let start = encode_utf8(moves).len() + if moves_played(moves) == 0 { 0int } else { 1int };
    &&& moves.len() <= stripped.len()
    &&& stripped.subrange(0, moves.len() as int) == moves
    &&& start < encode_utf8(line).len()
}

/// The move the line offers after `moves`: its next field, unless that field is marked with `X`.
pub open spec fn line_candidate(line: Seq<char>, moves: Seq<char>) -> Option<MoveData> {
    if line_matches(line, moves) {
        let field = split_on(line, ' ')[moves_played(moves)];
        if field.contains('X') { None } else { Some(spec_from_coordinates(field)) }
    } else {
        None
    }
}

/// The moves the first `n` lines offer after `moves`, in line order.
pub open spec fn book_candidates(lines: Seq<&str>, moves: Seq<char>, n: int) -> Seq<MoveData>
    decreases n,
{
    if n <= 0 {
        Seq::empty()
    } else {
        let rest = book_candidates(lines, moves, n - 1);
        match line_candidate(lines[n - 1]@, moves) {
            Some(m) => rest.push(m),
            None => rest,
        }
    }
}

/// Every length fits in a `usize` with room to spare.
pub open spec fn book_lengths_fit(lines: Seq<&str>, moves: Seq<char>) -> bool {
    &&& moves.len() < usize::MAX
    &&& encode_utf8(moves).len() < usize::MAX
    &&& forall|k: int| 0 <= k < lines.len() ==> encode_utf8(#[trigger] lines[k]@).len() < usize::MAX
}

/// Every line that continues `moves` has a next field, and that field, unless
/// marked with `X`, starts with four ASCII characters.
pub open spec fn book_readable(lines: Seq<&str>, moves: Seq<char>) -> bool {
    &&& book_lengths_fit(lines, moves)
    &&& forall|k: int| 0 <= k < lines.len() && #[trigger] line_matches(lines[k]@, moves) ==> {
        let fields = split_on(lines[k]@, ' ');
        &&& moves_played(moves) < fields.len()
        &&& !fields[moves_played(moves)].contains('X') ==> ascii_prefix4(fields[moves_played(moves)])
    }
}

/// Picks one of `moves` at random with `rand::seq::SliceRandom::choose` and
/// the thread-local generator; nothing is `None` exactly when `moves` is
/// empty, and a picked move is one of `moves`. Which one is left to chance.
#[verifier::external_body]
fn choose_move(moves: &Vec<MoveData>) -> (r: Option<MoveData>)
    ensures
        r is None <==> moves@.len() == 0,
        r is Some ==> moves@.contains(r->0),
{
    moves.choose(&mut rand::thread_rng()).copied()
}

/// `s` with every `X` taken out.
fn strip_x(s: &Vec<char>) -> (r: Vec<char>)
    ensures
        r@ == without_x(s@),
{
    let mut r: Vec<char> = Vec::new();
    let mut i: usize = 0;
    while i < s.len()
        invariant
            i <= s@.len(),
            r@ == without_x(s@.take(i as int)),
        decreases s@.len() - i,
    {
        proof {
            assert(s@.take(i + 1).drop_last() =~= s@.take(i as int));
        }
        if s[i] != 'X' {
            r.push(s[i]);
        }
        i = i + 1;
    }
    proof {
        assert(s@.take(s@.len() as int) =~= s@);
    }
    r
}

/// The number of spaces in `s`.
fn count_spaces(s: &Vec<char>) -> (r: usize)
    ensures
        r == count_char(s@, ' '),
        r <= s@.len(),
{
    let mut r: usize = 0;
    let mut i: usize = 0;
    while i < s.len()
        invariant
            i <= s@.len(),
            r == count_char(s@.take(i as int), ' '),
            r <= i,
        decreases s@.len() - i,
    {
        proof {
            assert(s@.take(i + 1).drop_last() =~= s@.take(i as int));
        }
        if s[i] == ' ' {
            r = r + 1;
        }
        i = i + 1;
    }
    proof {
        assert(s@.take(s@.len() as int) =~= s@);
    }
    r
}

/// Whether `s` starts with `prefix`.
fn starts_with(s: &Vec<char>, prefix: &Vec<char>) -> (r: bool)
    ensures
        r == (prefix@.len() <= s@.len() && s@.subrange(0, prefix@.len() as int) == prefix@),
{
    if prefix.len() > s.len() {
        return false;
    }
    let mut i: usize = 0;
    while i < prefix.len()
        invariant
            prefix@.len() <= s@.len(),
            i <= prefix@.len(),
            forall|k: int| 0 <= k < i ==> s@[k] == prefix@[k],
        decreases prefix@.len() - i,
    {
        if s[i] != prefix[i] {
            proof {
                assert(s@.subrange(0, prefix@.len() as int)[i as int] != prefix@[i as int]);
            }
            return false;
        }
        i = i + 1;
    }
    proof {
        assert(s@.subrange(0, prefix@.len() as int) =~= prefix@);
    }
    true
}

impl OpeningBook {
    /// The book with its built-in lines.
    pub fn create() -> (r: Self)
        ensures
            r.lines@ == book_lines(),
    {
        let lines = vec![
            "e2e4 e7e5 g1f3 b8c6 f1c4 g8f6 d2d3 f8c5 e1g1",
            "e2e4 e7e5 g1f3 b8c6 f1c4 g8f6 d2d3 f8c5 c1g5 h7h6",
            "e2e4 e7e5 g1f3 b8c6 d2d4 e5d4 f3d4 g8f6 d4c6 b7c6 e4e5 d8e7 d1e2 f6d5",
            "e2e4 c7c6 d2d4 d7d5 b1c3 d5e4 c3e4 g8f6 e4f6 e7f6 g1f3 f8d6 f1e2 e8g8 e1g1 f8e8 c2c4",
            "e2e4 c7c6 d2d4 d7d5 e4d5 c6d5 c2c4 g8f6 b1c3 b8c6 b1f3 e7e6 c4c5 f8e7 f1d3 e8g8 a2a3 b7b6 b2b4 b6c5 b4c5 e6e5",
            "e2e4 c7c6 d2d4 d7d5 e4e5 c8f5 g1f3 e7e6 f1e2 g8e7 e1g1 c6c5 d4c5 b8d7 c1e3 e7c6",
            "e2e4 c7c6 g1f3 d7d5 b1c3 c8g4 f1e2 g8f6 h2h3 g4f3 e2f3 d5e4 c3e4 e7e6 d2d4",
            "e2e4 e7e5 g1f3 b8c6 f1b5 a7a6 b5a4 g8f6 e1g1 f8c5",
            "e2e4 e7e5 g1f3 b8c6 f1b5 a7a6 b5a4 b7b5 a4b3 g7g6 e1g1 f8g7",
            "d2d4 d7d5 b1c3 g8f6 c1f4 c8f5",
            "d2d4 d7d5 b1c3 g8f6 c1g5 b8d7 g1f3 g7g6 e2e3 f8g7",
            "d2d4 d7d5 c1f4 c7c5 e2e3 e7e6 c2c3 g8f6 b1d2 f8d6 d4c5 d6c5 f1d3 e8g8 g1f3 f8e8 e1g1",
            "d2d4 d7d5 c2c4 e7e6 b1c3 c7c6 c1f4 d5c4 e2e3 b7b5 a2a4 d8b6 g1f3 g8f6",
            "d2d4 d7d5 c2c4 c7c6 b1c3 d5c4 e2e4 b7b5 a2a4 d8b6",
            "d2d4 d7d5 c2c4 c7c6 g1f3 d5c4 e2e3 c8e6 b1c3 b7b5 a2a4 b5b4 c3e2 e6d5 e2g3 g8f6 c1d2",
            "d2d4 g8f6 c2c4 e7e6 b1c3 f8b4 e2e3 e8g8 f1d3 d7d5 g1e2 d5c4 d3c4 e6e5 e1g1 b8c6",
            "d2d4 g8f6 c2c4 d7d5 g1f3 e7e6 b1c3 f8e7 c1f4 e8g8 e2e3 b7b6 f1d3 d5c4 d3c4 c8b7 e1g1",
            "e2e4 c7c5 g1f3 d7d6 d2d4 c5d4 f3d4 g8f6 b1c3 b8c6 f1c4 e7e6 c1e3 c8d7 d1e2 a7a6",
            "Xc2c4 e7e5 b1c3 g8f6",
            "e2e4 c7c5 Xb1c3 b8c6 f1b5 c6d4 b5c4 a7a6 g1f3 b7b5 c4e2 c8b7 e1g1 e7e6 d2d3 d4e2 d1e2",
        ];
        proof {
            assert(lines@ =~= book_lines());
        }
        OpeningBook { lines }
    }

    /// The moves the book offers after `moves`, in line order (see `line_candidate`).
    pub fn opening_candidates(&self, moves: &String) -> (r: Vec<MoveData>)
        requires
            book_readable(self.lines@, moves@),
        ensures
            r@ == book_candidates(self.lines@, moves@, self.lines@.len() as int),
    {
        let moves_chars = chars_of(moves.as_str());
        let played: usize = if moves_chars.len() == 0 { 0 } else { count_spaces(&moves_chars) + 1 };
        let moves_bytes = moves.as_str().len();
        let mut opening_moves: Vec<MoveData> = Vec::new();
        let mut k: usize = 0;
        while k < self.lines.len()
            invariant
                k <= self.lines@.len(),
                moves_chars@ == moves@,
                played == moves_played(moves@),
                moves_bytes == encode_utf8(moves@).len(),
                book_readable(self.lines@, moves@),
                opening_moves@ == book_candidates(self.lines@, moves@, k as int),
            decreases self.lines@.len() - k,
        {
            let line: &str = self.lines[k];
            proof {
                assert(encode_utf8(self.lines@[k as int]@).len() < usize::MAX);
            }
            let line_chars = chars_of(line);
            let stripped = strip_x(&line_chars);
            let start = moves_bytes + if played == 0 { 0 } else { 1 };
            if starts_with(&stripped, &moves_chars) && start < line.len() {
                proof {
                    assert(line_matches(self.lines@[k as int]@, moves@));
                }
                let fields = split_chars(&line_chars, ' ');
                let next_move = &fields[played];
                if !chars_contain(next_move, 'X') {
                    let data = MoveData::from_coordinates(string_of(next_move));
                    opening_moves.push(data);
                }
            } else {
                proof {
                    assert(!line_matches(self.lines@[k as int]@, moves@));
                }
            }
            proof {
                assert(book_candidates(self.lines@, moves@, k + 1) == match line_candidate(self.lines@[k as int]@, moves@) {
                    Some(m) => book_candidates(self.lines@, moves@, k as int).push(m),
                    None => book_candidates(self.lines@, moves@, k as int),
                });
            }
            k = k + 1;
        }
        opening_moves
    }

    /// A random move the book offers after `moves` (see `opening_candidates`),
    /// or the null move when it offers none.
    pub fn get_opening_move(&mut self, moves: String) -> (r: MoveData)
        requires
            book_readable(old(self).lines@, moves@),
        ensures
            final(self).lines == old(self).lines,
            book_candidates(old(self).lines@, moves@, old(self).lines@.len() as int).len() == 0 ==> r == spec_null_move(),
            book_candidates(old(self).lines@, moves@, old(self).lines@.len() as int).len() > 0 ==> book_candidates(
                old(self).lines@,
                moves@,
                old(self).lines@.len() as int,
            ).contains(r),
    {
        let opening_moves = self.opening_candidates(&moves);
        match choose_move(&opening_moves) {
            Some(m) => m,
            None => null_move(),
        }
    }
}

/// Whether the first four characters of `s` exist and are ASCII.
fn ascii_prefix4_now(s: &Vec<char>) -> (r: bool)
    ensures
        r == ascii_prefix4(s@),
{
    if s.len() < 4 {
        return false;
    }
    let mut i: usize = 0;
    while i < 4
        invariant
            s@.len() >= 4,
            i <= 4,
            forall|k: int| 0 <= k < i ==> (#[trigger] s@[k] as int) < 128,
        decreases 4 - i,
    {
        if s[i] >= '\u{80}' {
            return false;
        }
        i = i + 1;
    }
    true
}

impl OpeningBook {
    /// Whether the book can be read after `moves` (see `book_readable`), so
    /// that callers can test it before `get_opening_move`.
    pub fn readable_after(&self, moves: &String) -> (r: bool)
        requires
            book_lengths_fit(self.lines@, moves@),
        ensures
            r == book_readable(self.lines@, moves@),
    {
        let moves_chars = chars_of(moves.as_str());
        let moves_bytes = moves.as_str().len();
        let played: usize = if moves_chars.len() == 0 { 0 } else { count_spaces(&moves_chars) + 1 };
        let mut k: usize = 0;
        while k < self.lines.len()
            invariant
                k <= self.lines@.len(),
                moves_chars@ == moves@,
                moves@.len() < usize::MAX,
                encode_utf8(moves@).len() < usize::MAX,
                played == moves_played(moves@),
                moves_bytes == encode_utf8(moves@).len(),
                book_lengths_fit(self.lines@, moves@),
                forall|q: int| 0 <= q < k && #[trigger] line_matches(self.lines@[q]@, moves@) ==> {
                    let fields = split_on(self.lines@[q]@, ' ');
                    &&& moves_played(moves@) < fields.len()
                    &&& !fields[moves_played(moves@)].contains('X') ==> ascii_prefix4(fields[moves_played(moves@)])
                },
            decreases self.lines@.len() - k,
        {
            let line: &str = self.lines[k];
            proof {
                assert(encode_utf8(self.lines@[k as int]@).len() < usize::MAX);
            }
            let line_bytes = line.len();
            let line_chars = chars_of(line);
            let stripped = strip_x(&line_chars);
            let start = moves_bytes + if played == 0 { 0 } else { 1 };
            if starts_with(&stripped, &moves_chars) && start < line_bytes {
                proof {
                    assert(line_matches(self.lines@[k as int]@, moves@));
                }
                let fields = split_chars(&line_chars, ' ');
                if played >= fields.len() {
                    return false;
                }
                let next_move = &fields[played];
                if !chars_contain(next_move, 'X') && !ascii_prefix4_now(next_move) {
                    return false;
                }
            } else {
                proof {
                    assert(!line_matches(self.lines@[k as int]@, moves@));
                }
            }
            k = k + 1;
        }
        true
    }
}

} // verus!
