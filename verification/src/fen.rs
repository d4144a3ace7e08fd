//! Reading and writing positions in Forsyth-Edwards notation.
use vstd::prelude::*;
use crate::utils::{bit_set, chars_of, rank_str, rank_char};
use crate::bot::{spec_parse_usize, parse_usize_chars, digit_of};
use crate::pieces::{
    NO_PIECE, PAWN, KING, PIECE_COUNT, char_to_piece, get_piece_type, is_piece_white, spec_char_to_piece,
    spec_piece_type, spec_piece_to_char,
};
use crate::castling_rights::{WHITE_CASTLE_LONG, WHITE_CASTLE_SHORT, BLACK_CASTLE_LONG, BLACK_CASTLE_SHORT};
use crate::piece_square_tables::BASE_WORTHS_OF_PIECE_TYPE;
use crate::value_holder::ValueHolder;
use crate::precalculated_move_data::{PrecalculatedMoveData, lemma_zero_bits};
use crate::zobrist::{Zobrist, SEED, TABLE_NUMBERS, pcg64_numbers};
use crate::pieces::lemma_piece_char_round_trip;
use crate::board::{
    Board, BoardState, first_piece_at, lemma_first_piece_at, material_of, material_upto, counted_worth,
    lemma_material_step, lemma_material_bounds, lemma_base_worths, color_of,
};

verus! {

/// `s` cut at every `sep`: the pieces between separators, in order (an
/// empty piece where two separators meet or at either end).
pub open spec fn split_on(s: Seq<char>, sep: char) -> Seq<Seq<char>>
    decreases s.len(),
{
    if s.len() == 0 {
        seq![Seq::empty()]
    } else {
        let init = split_on(s.drop_last(), sep);
        if s.last() == sep {
            init.push(Seq::empty())
        } else {
            init.update(init.len() - 1, init.last().push(s.last()))
        }
    }
}

pub proof fn lemma_split_on_len(s: Seq<char>, sep: char)
    ensures
        split_on(s, sep).len() >= 1,
        forall|k: int| 0 <= k < split_on(s, sep).len() ==> (#[trigger] split_on(s, sep)[k]).len() <= s.len(),
    decreases s.len(),
{
    if s.len() > 0 {
        lemma_split_on_len(s.drop_last(), sep);
    }
}

/// The pieces of `s` between the separators `sep` (see `split_on`).
pub fn split_chars(s: &Vec<char>, sep: char) -> (r: Vec<Vec<char>>)
    ensures
        r@.len() == split_on(s@, sep).len(),
        forall|k: int| 0 <= k < r@.len() ==> #[trigger] r@[k]@ == split_on(s@, sep)[k],
{
    let mut fields: Vec<Vec<char>> = Vec::new();
    let mut current: Vec<char> = Vec::new();
    let mut i: usize = 0;
    while i < s.len()
        invariant
            i <= s@.len(),
            fields@.len() + 1 == split_on(s@.take(i as int), sep).len(),
            forall|k: int| 0 <= k < fields@.len() ==> #[trigger] fields@[k]@ == split_on(s@.take(i as int), sep)[k],
            current@ == split_on(s@.take(i as int), sep).last(),
        decreases s@.len() - i,
    {
        let ghost before = s@.take(i as int);
        let c = s[i];
        proof {
            assert(s@.take(i + 1).drop_last() =~= before);
            lemma_split_on_len(before, sep);
        }
        if c == sep {
            fields.push(current);
            current = Vec::new();
        } else {
            current.push(c);
        }
        i = i + 1;
    }
    proof {
        assert(s@.take(s@.len() as int) =~= s@);
    }
    fields.push(current);
    fields
}

/// Whether `c` occurs in `s`.
pub fn chars_contain(s: &Vec<char>, c: char) -> (r: bool)
    ensures
        r == s@.contains(c),
{
    let mut i: usize = 0;
    while i < s.len()
        invariant
            i <= s@.len(),
            forall|k: int| 0 <= k < i ==> s@[k] != c,
        decreases s@.len() - i,
    {
        if s[i] == c {
            proof {
                assert(s@[i as int] == c);
            }
            return true;
        }
        i = i + 1;
    }
    false
}

/// Whether `s` is exactly the one character `c`.
pub fn chars_are(s: &Vec<char>, c: char) -> (r: bool)
    ensures
        r == (s@ == seq![c]),
{
    let r = s.len() == 1 && s[0] == c;
    proof {
        if s@.len() == 1 && s@[0] == c {
            assert(s@ =~= seq![c]);
        }
    }
    r
}

/// Whether `c` is a decimal digit.
pub open spec fn is_digit(c: char) -> bool {
    48 <= (c as int) <= 57
}

/// The placement and the next square after reading the piece field `s` of a
/// FEN from the first square on: a digit skips that many squares, a piece
/// letter puts its piece on the next square, and `/` only separates rows.
pub open spec fn fen_fold(s: Seq<char>) -> (Seq<int>, int)
    decreases s.len(),
{
    if s.len() == 0 {
        (Seq::new(64, |k: int| 12int), 0int)
    } else {
        let prev = fen_fold(s.drop_last());
        let c = s.last();
        if c == '/' {
            prev
        } else if is_digit(c) {
            (prev.0, prev.1 + ((c as int) - 48))
        } else {
            (prev.0.update(prev.1, spec_char_to_piece(c)), prev.1 + 1)
        }
    }
}

/// Every letter of the piece field names a piece and lands on the board.
pub open spec fn fen_pieces_ok(s: Seq<char>) -> bool {
    forall|k: int| 0 <= k < s.len() ==> #[trigger] fen_letter_ok(s, k)
}

/// The character at `k` of the piece field is a separator, a digit, or a
/// piece letter that lands on the board.
pub open spec fn fen_letter_ok(s: Seq<char>, k: int) -> bool {
    s[k] != '/' && !is_digit(s[k]) ==> spec_char_to_piece(s[k]) != 12 && fen_fold(s.take(k)).1 < 64
}

/// The castling rights a FEN castling field grants: `Q`, `K`, `q` and `k`
/// anywhere in it switch on their right.
pub open spec fn fen_castling(f: Seq<char>) -> u8 {
    let a: u8 = if f.contains('Q') { 0u8 ^ WHITE_CASTLE_LONG } else { 0u8 };
    let b: u8 = if f.contains('K') { a ^ WHITE_CASTLE_SHORT } else { a };
    let c: u8 = if f.contains('q') { b ^ BLACK_CASTLE_LONG } else { b };
    if f.contains('k') { c ^ BLACK_CASTLE_SHORT } else { c }
}

/// The fifty-move counter a FEN field gives: its value as `str::parse::<u8>`
/// reads it, 0 when that fails.
pub open spec fn fen_counter(f: Seq<char>) -> u8 {
    match spec_parse_usize(f) {
        Some(n) => if n <= 255 { n as u8 } else { 0 },
        None => 0,
    }
}

/// A FEN the board can be read from: at least five space-separated fields
/// and a piece field whose letters all land on the board.
pub open spec fn fen_readable(fen: Seq<char>) -> bool {
    &&& split_on(fen, ' ').len() >= 5
    &&& fen_pieces_ok(split_on(fen, ' ')[0])
    &&& fen.len() <= usize::MAX / 16
}

proof fn lemma_xor_small(x: u8, y: u8)
    requires
        x < 16,
        y < 16,
    ensures
        x ^ y < 16,
{
    assert(x ^ y < 16) by (bit_vector)
        requires
            x < 16,
            y < 16,
    ;
}

/// Reading the piece field keeps a 64-square placement in which every square
/// from the next one on is empty, and advances at most nine squares a character.
pub proof fn lemma_fen_fold(s: Seq<char>)
    requires
        fen_pieces_ok(s),
    ensures
        fen_fold(s).0.len() == 64,
        0 <= fen_fold(s).1 <= 9 * s.len(),
        forall|t: int| fen_fold(s).1 <= t < 64 ==> #[trigger] fen_fold(s).0[t] == 12,
        forall|t: int| 0 <= t < 64 ==> 0 <= #[trigger] fen_fold(s).0[t] <= 12,
    decreases s.len(),
{
    if s.len() > 0 {
        let p = s.drop_last();
        assert forall|k: int| 0 <= k < p.len() implies #[trigger] fen_letter_ok(p, k) by {
            assert(p.take(k) =~= s.take(k));
            assert(fen_letter_ok(s, k));
        }
        lemma_fen_fold(p);
        let k = s.len() - 1;
        assert(s.take(k) =~= p);
        assert(fen_letter_ok(s, k));
    } else {
        let e = fen_fold(s).0;
        assert(e.len() == 64);
        assert(forall|t: int| 0 <= t < 64 ==> e[t] == 12);
    }
}

proof fn lemma_material_empty(v: Seq<int>, c: int, n: int)
    requires
        0 <= n <= v.len(),
        forall|t: int| 0 <= t < n ==> #[trigger] v[t] == 12,
    ensures
        material_upto(v, c, n) == 0,
    decreases n,
{
    if n > 0 {
        lemma_material_empty(v, c, n - 1);
    }
}

impl Board {
    /// Reads a position from FEN: the pieces (field 1), the side to move
    /// (white exactly when field 2 is `w`), the castling rights (field 3) and
    /// the fifty-move counter (field 5); the en-passant field is not read.
    pub fn from_fen(fen: &str) -> (r: Board)
        requires
            fen_readable(fen@),
        ensures
            r.wf(),
            r.view() == fen_fold(split_on(fen@, ' ')[0]).0,
            r.white_to_move == (split_on(fen@, ' ')[1] == seq!['w']),
            r.board_state.current.castling_rights == fen_castling(split_on(fen@, ' ')[2]),
            r.board_state.current.fifty_move_counter == fen_counter(split_on(fen@, ' ')[4]),
            r.board_state.index == 0,
            r.moves@.len() == 0,
            r.en_passant_file == 0,
            r.zobrist.tables_from(pcg64_numbers(SEED, TABLE_NUMBERS)),
            r.zobrist.key.current == r.zobrist.position_key(r.view(), r.board_state.current.castling_rights as int, 0,
                r.white_to_move),
            r.board_state.current.attacked_squares@[0] is Some,
            r.board_state.current.attacked_squares@[1] is Some,
    {
        let chars = chars_of(fen);
        let fields = split_chars(&chars, ' ');
        let ghost f = split_on(fen@, ' ');
        let mut castling_rights: u8 = 0;
        if chars_contain(&fields[2], 'Q') {
            castling_rights = castling_rights ^ WHITE_CASTLE_LONG;
        }
        let ghost a = castling_rights;
        if chars_contain(&fields[2], 'K') {
            castling_rights = castling_rights ^ WHITE_CASTLE_SHORT;
        }
        let ghost b = castling_rights;
        if chars_contain(&fields[2], 'q') {
            castling_rights = castling_rights ^ BLACK_CASTLE_LONG;
        }
        let ghost c = castling_rights;
        if chars_contain(&fields[2], 'k') {
            castling_rights = castling_rights ^ BLACK_CASTLE_SHORT;
        }
        proof {
            lemma_xor_small(0u8, WHITE_CASTLE_LONG);
            lemma_xor_small(a, WHITE_CASTLE_SHORT);
            lemma_xor_small(b, BLACK_CASTLE_LONG);
            lemma_xor_small(c, BLACK_CASTLE_SHORT);
        }
        let fifty_move_counter: u8 = match parse_usize_chars(&fields[4]) {
            Some(n) => if n <= 255 { n as u8 } else { 0 },
            None => 0,
        };
        let white_to_move = chars_are(&fields[1], 'w');
        let mut board = Board {
            precalculated_move_data: PrecalculatedMoveData::calculate(),
            piece_bitboards: [0u64; 12],
            color_bitboards: [0u64; 2],
            en_passant_file: 0,
            white_to_move,
            total_material_without_pawns: [0i32; 2],
            zobrist: Zobrist::new_empty(),
            moves: Vec::new(),
            board_state: ValueHolder::new(BoardState::new(castling_rights, fifty_move_counter)),
        };
        proof {
            lemma_zero_bits();
            assert forall|t: int| 0 <= t < 64 implies #[trigger] board.view()[t] == 12 by {
                lemma_first_piece_at(board.piece_bitboards@, t, 0);
            }
            assert(board.view() =~= fen_fold(Seq::<char>::empty()).0);
            lemma_material_empty(board.view(), 0, 64);
            lemma_material_empty(board.view(), 1, 64);
            lemma_base_worths();
        }
        let pieces = &fields[0];
        let ghost ps = f[0];
        proof {
            lemma_fen_fold(ps);
            lemma_split_on_len(fen@, ' ');
        }
        let mut i: usize = 0;
        let mut k: usize = 0;
        while k < pieces.len()
            invariant
                pieces@ == ps,
                fen_pieces_ok(ps),
                ps.len() <= usize::MAX / 16,
                k <= ps.len(),
                i as int == fen_fold(ps.take(k as int)).1,
                board.view() == fen_fold(ps.take(k as int)).0,
                board.bitboards_wf(),
                board.total_material_without_pawns@[0] == material_of(board.view(), 0),
                board.total_material_without_pawns@[1] == material_of(board.view(), 1),
                board.precalculated_move_data.wf(),
                board.en_passant_file == 0,
                board.white_to_move == white_to_move,
                board.zobrist.wf(),
                board.moves@.len() == 0,
                board.board_state.current.castling_rights == castling_rights,
                board.board_state.current.fifty_move_counter == fifty_move_counter,
                board.board_state.current.attacked_squares@ == seq![None::<u64>, None::<u64>],
                board.board_state.index == 0,
                board.board_state.history@ == seq![board.board_state.current],
            decreases ps.len() - k,
        {
            let ghost pre = ps.take(k as int);
            let ghost post = ps.take(k + 1);
            proof {
                assert(post.drop_last() =~= pre);
                assert(fen_pieces_ok(pre)) by {
                    assert forall|q: int| 0 <= q < pre.len() implies #[trigger] fen_letter_ok(pre, q) by {
                        assert(pre.take(q) =~= ps.take(q));
                        assert(fen_letter_ok(ps, q));
                    }
                }
                lemma_fen_fold(pre);
            }
            let ch = pieces[k];
            if ch != '/' {
                let d = digit_of(ch);
                if d <= 9 {
                    i = i + d as usize;
                } else {
                    let piece = char_to_piece(ch);
                    proof {
                        assert(!is_digit(ps[k as int]));
                        assert(fen_letter_ok(ps, k as int));
                        assert(piece != NO_PIECE && i < 64);
                        lemma_material_step(board.view(), i as int, piece as int, 0);
                        lemma_material_step(board.view(), i as int, piece as int, 1);
                        lemma_material_bounds(board.view(), 0, 64);
                        lemma_material_bounds(board.view(), 1, 64);
                    }
                    board.toggle_piece(piece, i as u8);
                    let piece_type = get_piece_type(piece);
                    let color = is_piece_white(piece) as usize;
                    if piece_type != PAWN && piece_type != KING {
                        board.total_material_without_pawns[color] = board.total_material_without_pawns[color]
                            + BASE_WORTHS_OF_PIECE_TYPE[piece_type];
                    }
                    proof {
                        assert(color as int == color_of(piece as int));
                    }
                    i = i + 1;
                }
            }
            k = k + 1;
        }
        proof {
            assert(ps.take(ps.len() as int) =~= ps);
        }
        board.zobrist = Zobrist::generate(&board);
        board.calculate_attacked_squares();
        board
    }
}

/// The digit for a run of `e` empty squares.
pub open spec fn run_char(e: int) -> char {
    (48 + e) as char
}

/// The FEN text of row `r` from file `f` on, with `e` empty squares before
/// file `f` not yet written: runs of empty squares as digits, pieces as letters.
pub open spec fn fen_row(v: Seq<int>, r: int, f: int, e: int) -> Seq<char>
    decreases 8 - f,
{
    let run: Seq<char> = if e > 0 { seq![run_char(e)] } else { Seq::empty() };
    if f >= 8 {
        run
    } else if v[8 * r + f] != 12 {
        run + seq![spec_piece_to_char(v[8 * r + f])] + fen_row(v, r, f + 1, 0)
    } else {
        fen_row(v, r, f + 1, e + 1)
    }
}

/// The rows from `r` on, separated by `/`.
pub open spec fn fen_rows(v: Seq<int>, r: int) -> Seq<char>
    decreases 8 - r,
{
    if r >= 7 {
        fen_row(v, 7, 0, 0)
    } else {
        fen_row(v, r, 0, 0) + seq!['/'] + fen_rows(v, r + 1)
    }
}

/// What follows row `r` in the piece field: a `/` and the later rows, if any.
pub open spec fn fen_after_row(v: Seq<int>, r: int) -> Seq<char> {
    if r >= 7 { Seq::empty() } else { seq!['/'] + fen_rows(v, r + 1) }
}

/// The one-letter string of a piece.
fn piece_str(piece: usize) -> (r: &'static str)
    requires
        piece < 12,
    ensures
        r@ == seq![spec_piece_to_char(piece as int)],
{
    match piece {
        0 => {
            proof {
                reveal_strlit("p");
            }
            "p"
        },
        1 => {
            proof {
                reveal_strlit("n");
            }
            "n"
        },
        2 => {
            proof {
                reveal_strlit("b");
            }
            "b"
        },
        3 => {
            proof {
                reveal_strlit("r");
            }
            "r"
        },
        4 => {
            proof {
                reveal_strlit("q");
            }
            "q"
        },
        5 => {
            proof {
                reveal_strlit("k");
            }
            "k"
        },
        6 => {
            proof {
                reveal_strlit("P");
            }
            "P"
        },
        7 => {
            proof {
                reveal_strlit("N");
            }
            "N"
        },
        8 => {
            proof {
                reveal_strlit("B");
            }
            "B"
        },
        9 => {
            proof {
                reveal_strlit("R");
            }
            "R"
        },
        10 => {
            proof {
                reveal_strlit("Q");
            }
            "Q"
        },
        _ => {
            proof {
                reveal_strlit("K");
            }
            "K"
        },
    }
}

impl Board {
    /// The piece field of the position's FEN, rows from the top (row 0) down.
    pub fn calculate_fen(&self) -> (r: String)
        requires
            self.bitboards_wf(),
        ensures
            r@ == fen_rows(self.view(), 0),
    {
        let ghost v = self.view();
        let mut result = String::new();
        let mut rank: u8 = 0;
        proof {
            self.lemma_view_is_bits();
        }
        while rank < 8
            invariant
                rank <= 8,
                self.bitboards_wf(),
                v == self.view(),
                forall|t: int| 0 <= t < 64 ==> 0 <= #[trigger] v[t] <= 12,
                rank == 0 ==> result@ == Seq::<char>::empty(),
                0 < rank < 8 ==> result@ + seq!['/'] + fen_rows(v, rank as int) == fen_rows(v, 0),
                rank == 8 ==> result@ == fen_rows(v, 0),
            decreases 8 - rank,
        {
            if rank > 0 {
                proof {
                    reveal_strlit("/");
                }
                result.append("/");
            }
            proof {
                assert(result@ + fen_rows(v, rank as int) =~= fen_rows(v, 0));
                assert(fen_rows(v, rank as int) =~= fen_row(v, rank as int, 0, 0) + fen_after_row(v, rank as int));
            }
            let mut empty: u8 = 0;
            let mut file: u8 = 0;
            while file < 8
                invariant
                    rank < 8,
                    file <= 8,
                    empty <= file,
                    self.bitboards_wf(),
                    v == self.view(),
                    forall|t: int| 0 <= t < 64 ==> 0 <= #[trigger] v[t] <= 12,
                    result@ + fen_row(v, rank as int, file as int, empty as int) + fen_after_row(v, rank as int) == fen_rows(v, 0),
                decreases 8 - file,
            {
                let piece = self.get_piece(rank * 8 + file);
                let ghost before = result@;
                if piece != NO_PIECE {
                    if empty > 0 {
                        result.append(rank_str(8 - empty));
                        proof {
                            assert(rank_char(8 - empty) == run_char(empty as int));
                        }
                    }
                    let ghost mid = result@;
                    result.append(piece_str(piece));
                    proof {
                        let run: Seq<char> = if empty > 0 { seq![run_char(empty as int)] } else { Seq::empty() };
                        assert(mid =~= before + run);
                        assert(result@ + fen_row(v, rank as int, file + 1, 0) + fen_after_row(v, rank as int) =~= before + fen_row(
                            v,
                            rank as int,
                            file as int,
                            empty as int,
                        ) + fen_after_row(v, rank as int));
                    }
                    empty = 0;
                } else {
                    empty = empty + 1;
                }
                file = file + 1;
            }
            let ghost before = result@;
            if empty > 0 {
                result.append(rank_str(8 - empty));
                proof {
                    assert(rank_char(8 - empty) == run_char(empty as int));
                }
            }
            proof {
                assert(result@ + fen_after_row(v, rank as int) =~= before + fen_row(v, rank as int, 8, empty as int) + fen_after_row(
                    v,
                    rank as int,
                ));
                if rank < 7 {
                    assert(result@ + seq!['/'] + fen_rows(v, rank + 1) =~= fen_rows(v, 0));
                } else {
                    assert(result@ =~= fen_rows(v, 0));
                }
            }
            rank = rank + 1;
        }
        result
    }
}

/// Whether a board can be read from `fen` (see `fen_readable`), so that
/// callers can test it before `Board::from_fen`.
pub fn fen_is_readable(fen: &str) -> (r: bool)
    ensures
        r == fen_readable(fen@),
{
    let chars = chars_of(fen);
    if chars.len() > usize::MAX / 16 {
        return false;
    }
    let fields = split_chars(&chars, ' ');
    if fields.len() < 5 {
        return false;
    }
    let pieces = &fields[0];
    let ghost ps = split_on(fen@, ' ')[0];
    proof {
        lemma_split_on_len(fen@, ' ');
    }
    let mut i: usize = 0;
    let mut k: usize = 0;
    while k < pieces.len()
        invariant
            pieces@ == ps,
            ps == split_on(fen@, ' ')[0],
            ps.len() <= usize::MAX / 16,
            k <= ps.len(),
            i as int == fen_fold(ps.take(k as int)).1,
            fen_pieces_ok(ps.take(k as int)),
        decreases ps.len() - k,
    {
        let ghost pre = ps.take(k as int);
        let ghost post = ps.take(k + 1);
        proof {
            assert(post.drop_last() =~= pre);
            lemma_fen_fold(pre);
        }
        let ch = pieces[k];
        if ch != '/' {
            let d = digit_of(ch);
            if d <= 9 {
                i = i + d as usize;
            } else {
                let piece = char_to_piece(ch);
                if piece == NO_PIECE || i >= 64 {
                    proof {
                        assert(post.take(k as int) =~= pre);
                        assert(!fen_letter_ok(post, k as int));
                        assert(!fen_letter_ok(ps, k as int)) by {
                            assert(ps.take(k as int) =~= pre);
                        }
                        assert(!fen_pieces_ok(ps));
                        assert(ps == split_on(fen@, ' ')[0]);
                    }
                    return false;
                }
                i = i + 1;
            }
        }
        proof {
            assert forall|q: int| 0 <= q < post.len() implies #[trigger] fen_letter_ok(post, q) by {
                if q < k {
                    assert(post.take(q) =~= pre.take(q));
                    assert(fen_letter_ok(pre, q));
                } else {
                    assert(post.take(q) =~= pre);
                }
            }
        }
        k = k + 1;
    }
    proof {
        assert(ps.take(ps.len() as int) =~= ps);
    }
    true
}

/// Reading the characters `b` of a piece field from the reading state `st`.
pub open spec fn fen_fold_from(st: (Seq<int>, int), b: Seq<char>) -> (Seq<int>, int)
    decreases b.len(),
{
    if b.len() == 0 {
        st
    } else {
        let prev = fen_fold_from(st, b.drop_last());
        let c = b.last();
        if c == '/' {
            prev
        } else if is_digit(c) {
            (prev.0, prev.1 + ((c as int) - 48))
        } else {
            (prev.0.update(prev.1, spec_char_to_piece(c)), prev.1 + 1)
        }
    }
}

/// Reading `a` and then `b` is reading `b` from where `a` left off.
proof fn lemma_fen_fold_append(a: Seq<char>, b: Seq<char>)
    ensures
        fen_fold(a + b) == fen_fold_from(fen_fold(a), b),
    decreases b.len(),
{
    if b.len() > 0 {
        assert((a + b).drop_last() =~= a + b.drop_last());
        lemma_fen_fold_append(a, b.drop_last());
    } else {
        assert(a + b =~= a);
    }
}

/// Reading `a` and then `b` from a state is reading `b` from where `a` left off.
proof fn lemma_fen_fold_from_append(st: (Seq<int>, int), a: Seq<char>, b: Seq<char>)
    ensures
        fen_fold_from(st, a + b) == fen_fold_from(fen_fold_from(st, a), b),
    decreases b.len(),
{
    if b.len() > 0 {
        assert((a + b).drop_last() =~= a + b.drop_last());
        lemma_fen_fold_from_append(st, a, b.drop_last());
    } else {
        assert(a + b =~= a);
    }
}

/// Every piece letter of `text`, read from the state `st`, names a piece and
/// lands on the board.
pub open spec fn letters_land(st: (Seq<int>, int), text: Seq<char>) -> bool {
    forall|k: int| 0 <= k < text.len() ==> #[trigger] letter_lands(st, text, k)
}

/// The character at `k` of `text` is a separator, a digit, or a piece letter
/// that lands on the board when `text` is read from `st`.
pub open spec fn letter_lands(st: (Seq<int>, int), text: Seq<char>, k: int) -> bool {
    text[k] != '/' && !is_digit(text[k]) ==> spec_char_to_piece(text[k]) != 12 && fen_fold_from(st, text.take(k)).1 < 64
}

/// Letters that land in `a`, and then in `b` from where `a` left off, land in `a + b`.
proof fn lemma_letters_land_append(st: (Seq<int>, int), a: Seq<char>, b: Seq<char>)
    requires
        letters_land(st, a),
        letters_land(fen_fold_from(st, a), b),
    ensures
        letters_land(st, a + b),
{
    assert forall|k: int| 0 <= k < (a + b).len() implies #[trigger] letter_lands(st, a + b, k) by {
        if k < a.len() {
            assert((a + b).take(k) =~= a.take(k));
            assert((a + b)[k] == a[k]);
            assert(letter_lands(st, a, k));
        } else {
            let j = k - a.len();
            assert((a + b).take(k) =~= a + b.take(j));
            lemma_fen_fold_from_append(st, a, b.take(j));
            assert((a + b)[k] == b[j]);
            assert(letter_lands(fen_fold_from(st, a), b, j));
        }
    }
}

/// A text with no piece letters lands all its letters.
proof fn lemma_letters_land_none(st: (Seq<int>, int), text: Seq<char>)
    requires
        forall|k: int| 0 <= k < text.len() ==> text[k] == '/' || is_digit(#[trigger] text[k]),
    ensures
        letters_land(st, text),
{
    assert forall|k: int| 0 <= k < text.len() implies #[trigger] letter_lands(st, text, k) by {}
}

/// The run digit of `e` empty squares reads as a skip of `e` squares.
proof fn lemma_run_char(e: int)
    requires
        1 <= e <= 8,
    ensures
        is_digit(run_char(e)),
        (run_char(e) as int) - 48 == e,
        run_char(e) != '/',
{
}

/// Reading the text of row `r` from file `f` on, with `e` empty squares of the
/// row before file `f` still to skip, writes the row's squares from `8r + f - e`
/// on as they are in `v`, leaves the squares before untouched, and ends at the
/// next row.
proof fn lemma_fen_row_read(v: Seq<int>, r: int, f: int, e: int, w: Seq<int>)
    requires
        v.len() == 64,
        w.len() == 64,
        forall|t: int| 0 <= t < 64 ==> 0 <= #[trigger] v[t] <= 12,
        0 <= r < 8,
        0 <= e <= f <= 8,
        forall|t: int| 8 * r + f - e <= t < 8 * r + f ==> #[trigger] v[t] == 12,
        forall|t: int| 8 * r + f - e <= t < 64 ==> #[trigger] w[t] == 12,
    ensures
        ({
            let st = fen_fold_from((w, 8 * r + f - e), fen_row(v, r, f, e));
            &&& st.1 == 8 * r + 8
            &&& st.0.len() == 64
            &&& forall|t: int| 0 <= t < 64 ==> #[trigger] st.0[t] == if t < 8 * r + f - e || t >= 8 * r + 8 { w[t] } else { v[t] }
        }),
        letters_land((w, 8 * r + f - e), fen_row(v, r, f, e)),
    decreases 8 - f,
{
    reveal_with_fuel(fen_fold_from, 2);
    let start = 8 * r + f - e;
    let run: Seq<char> = if e > 0 { seq![run_char(e)] } else { Seq::empty() };
    if e > 0 {
        lemma_run_char(e);
        assert(run.drop_last() =~= Seq::<char>::empty());
    }
    let after_run = fen_fold_from((w, start), run);
    assert(after_run == (w, 8 * r + f));
    lemma_letters_land_none((w, start), run);
    if f >= 8 {
        assert(fen_row(v, r, f, e) == run);
    } else if v[8 * r + f] != 12 {
        let sq = 8 * r + f;
        let letter = seq![spec_piece_to_char(v[sq])];
        let rest = fen_row(v, r, f + 1, 0);
        assert(fen_row(v, r, f, e) == run + letter + rest);
        lemma_fen_fold_from_append((w, start), run + letter, rest);
        lemma_fen_fold_from_append((w, start), run, letter);
        lemma_piece_char_round_trip(v[sq], ' ');
        assert(letter.drop_last() =~= Seq::<char>::empty());
        let w2 = w.update(sq, v[sq]);
        assert(spec_piece_to_char(v[sq]) != '/' && !is_digit(spec_piece_to_char(v[sq])));
        assert(fen_fold_from(after_run, letter) == (w2, sq + 1));
        lemma_fen_row_read(v, r, f + 1, 0, w2);
        assert(letters_land(after_run, letter)) by {
            assert(letter.take(0) =~= Seq::<char>::empty());
            assert(letter_lands(after_run, letter, 0));
        }
        lemma_letters_land_append((w, start), run, letter);
        lemma_letters_land_append((w, start), run + letter, rest);
    } else {
        assert(fen_row(v, r, f, e) == fen_row(v, r, f + 1, e + 1));
        lemma_fen_row_read(v, r, f + 1, e + 1, w);
    }
}

/// Reading the text of rows `r..8` from the start of row `r` writes those
/// rows as they are in `v` and leaves the rows before untouched.
proof fn lemma_fen_rows_read(v: Seq<int>, r: int, w: Seq<int>)
    requires
        v.len() == 64,
        w.len() == 64,
        forall|t: int| 0 <= t < 64 ==> 0 <= #[trigger] v[t] <= 12,
        0 <= r < 8,
        forall|t: int| 8 * r <= t < 64 ==> #[trigger] w[t] == 12,
    ensures
        ({
            let st = fen_fold_from((w, 8 * r), fen_rows(v, r));
            &&& st.1 == 64
            &&& forall|t: int| 0 <= t < 64 ==> #[trigger] st.0[t] == if t < 8 * r { w[t] } else { v[t] }
            &&& st.0.len() == 64
        }),
        letters_land((w, 8 * r), fen_rows(v, r)),
    decreases 8 - r,
{
    reveal_with_fuel(fen_fold_from, 2);
    lemma_fen_row_read(v, r, 0, 0, w);
    let row = fen_row(v, r, 0, 0);
    let st1 = fen_fold_from((w, 8 * r), row);
    if r < 7 {
        let slash: Seq<char> = seq!['/'];
        let rest = fen_rows(v, r + 1);
        assert(fen_rows(v, r) == row + slash + rest);
        lemma_fen_fold_from_append((w, 8 * r), row + slash, rest);
        lemma_fen_fold_from_append((w, 8 * r), row, slash);
        assert(slash.drop_last() =~= Seq::<char>::empty());
        assert(fen_fold_from(st1, slash) == st1);
        lemma_fen_rows_read(v, r + 1, st1.0);
        lemma_letters_land_none(st1, slash);
        lemma_letters_land_append((w, 8 * r), row, slash);
        lemma_fen_fold_from_append((w, 8 * r), row, slash);
        lemma_letters_land_append((w, 8 * r), row + slash, rest);
    }
}

/// The piece field written for a placement can be read, and reading it gives
/// the placement back.
pub proof fn lemma_fen_round_trip(v: Seq<int>)
    requires
        v.len() == 64,
        forall|t: int| 0 <= t < 64 ==> 0 <= #[trigger] v[t] <= 12,
    ensures
        fen_pieces_ok(fen_rows(v, 0)),
        fen_fold(fen_rows(v, 0)).0 == v,
{
    let empty = Seq::<int>::new(64, |k: int| 12int);
    lemma_fen_fold_append(Seq::<char>::empty(), fen_rows(v, 0));
    assert(Seq::<char>::empty() + fen_rows(v, 0) =~= fen_rows(v, 0));
    assert(fen_fold(Seq::<char>::empty()) == (empty, 0int));
    lemma_fen_rows_read(v, 0, empty);
    assert(fen_fold(fen_rows(v, 0)).0 =~= v);
    let text = fen_rows(v, 0);
    assert forall|k: int| 0 <= k < text.len() implies #[trigger] fen_letter_ok(text, k) by {
        lemma_fen_fold_append(Seq::<char>::empty(), text.take(k));
        assert(Seq::<char>::empty() + text.take(k) =~= text.take(k));
        assert(letter_lands((empty, 0int), text, k));
    }
}

/// Reading a piece field in the form that writing produces (each run of
/// empty squares one digit, rows split by '/') and writing the placement read
/// gives the field back.
pub proof fn lemma_fen_read_write(field: Seq<char>, w: Seq<int>)
    requires
        w.len() == 64,
        forall|t: int| 0 <= t < 64 ==> 0 <= #[trigger] w[t] <= 12,
        field == fen_rows(w, 0),
    ensures
        fen_pieces_ok(field),
        fen_rows(fen_fold(field).0, 0) == field,
{
    lemma_fen_round_trip(w);
}

} // verus!
