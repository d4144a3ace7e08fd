//! A simple mailbox chess game: a 64-square board of piece codes (see
//! `piece`), whose turn it is, the last move, a pending white promotion and
//! the four castling flags, with one level of undo.
use vstd::prelude::*;
use crate::point::Point;
use crate::piece::{PAWN, KNIGHT, BISHOP, ROOK, QUEEN, KING, WHITE, BLACK, PROMOTABLE_PIECES};
use crate::fen::{fen_fold, fen_pieces_ok, fen_letter_ok, is_digit, lemma_fen_fold};
use crate::pieces::{char_to_piece, spec_char_to_piece};
use crate::bot::digit_of;
use crate::piece_square_tables::{
    MIDDLEGAME_PAWN_TABLE, KNIGHT_TABLE, BISHOP_TABLE, ROOK_TABLE, QUEEN_TABLE, MIDDLEGAME_KING_TABLE, flip_index,
    mirrored_square,
};

verus! {

/// A move on the mailbox board, with what it does besides moving a piece.
#[derive(Copy, Clone, Debug, PartialEq, Eq, Structural, Hash)]
pub struct PieceMove {
    pub from: usize,
    pub to: usize,
    /// The piece type a black pawn promotes to (white promotions wait for `Game::promote`).
    pub promotion_type: u8,
    pub pawn_moving_twice: bool,
    /// The square of the pawn an en-passant capture removes.
    pub en_passant_capture: Option<usize>,
    pub short_castle: bool,
    pub long_castle: bool,
}

/// A plain move from `from` to `to`: no promotion, double push, en passant or castling.
pub open spec fn plain_move(from: int, to: int) -> PieceMove {
    PieceMove {
        from: from as usize,
        to: to as usize,
        promotion_type: 0,
        pawn_moving_twice: false,
        en_passant_capture: None,
        short_castle: false,
        long_castle: false,
    }
}

impl Default for PieceMove {
    fn default() -> (r: PieceMove)
        ensures
            r == plain_move(0, 0),
    {
        PieceMove::plain(0, 0)
    }
}

impl PieceMove {
    /// The plain move from `from` to `to`.
    pub fn plain(from: usize, to: usize) -> (r: PieceMove)
        ensures
            r == plain_move(from as int, to as int),
    {
        PieceMove {
            from,
            to,
            promotion_type: 0,
            pawn_moving_twice: false,
            en_passant_capture: None,
            short_castle: false,
            long_castle: false,
        }
    }
}

/// The colour bit of a piece code is set: the piece is white.
pub open spec fn spec_is_white(piece: u8) -> bool {
    piece & WHITE != 0
}

/// The type bits of a piece code (0 for an empty square).
pub open spec fn piece_kind(piece: u8) -> u8 {
    piece & 0b0111u8
}

pub fn is_white(piece: u8) -> (r: bool)
    ensures
        r == spec_is_white(piece),
{
    piece & WHITE != 0
}

#[derive(Copy, Clone, Debug, PartialEq, Eq, Hash)]
pub struct GameData {
    pub board: [u8; 64],
    pub whites_turn: bool,
    pub last_move: PieceMove,
    /// The square of a white pawn waiting for `Game::promote`.
    pub promoting: Option<usize>,
    pub white_can_short_castle: bool,
    pub white_can_long_castle: bool,
    pub black_can_short_castle: bool,
    pub black_can_long_castle: bool,
}

#[derive(Clone)]
pub struct Game {
    pub game_data: GameData,
    pub last_game_data: GameData,
}

/// The mailbox code of a bitboard piece (`0..6` black, `6..12` white, 12
/// empty): its type plus one, with the white bit for white pieces; 0 for empty.
pub open spec fn mailbox_piece(p: int) -> u8 {
    if 0 <= p < 6 {
        (p + 1) as u8
    } else if 6 <= p < 12 {
        (p - 6 + 1 + 8) as u8
    } else {
        0
    }
}

/// Reads the piece field of a FEN onto a mailbox board.
pub fn generate_starting_position(board: &str) -> (r: [u8; 64])
    requires
        fen_pieces_ok(board@),
        board@.len() <= usize::MAX / 16,
    ensures
        forall|i: int| 0 <= i < 64 ==> #[trigger] r@[i] == mailbox_piece(fen_fold(board@).0[i]),
{
    let chars = crate::utils::chars_of(board);
    let ghost s = board@;
    let mut result = [0u8; 64];
    let mut i: usize = 0;
    let mut k: usize = 0;
    proof {
        lemma_fen_fold(s);
    }
    while k < chars.len()
        invariant
            chars@ == s,
            fen_pieces_ok(s),
            k <= s.len(),
            i as int == fen_fold(s.take(k as int)).1,
            s.len() <= usize::MAX / 16,
            forall|t: int| 0 <= t < 64 ==> #[trigger] result@[t] == mailbox_piece(fen_fold(s.take(k as int)).0[t]),
        decreases s.len() - k,
    {
        let ghost pre = s.take(k as int);
        proof {
            assert(s.take(k + 1).drop_last() =~= pre);
            assert forall|q: int| 0 <= q < pre.len() implies #[trigger] fen_letter_ok(pre, q) by {
                assert(pre.take(q) =~= s.take(q));
                assert(fen_letter_ok(s, q));
            }
            lemma_fen_fold(pre);
            assert(fen_letter_ok(s, k as int));
        }
        let ch = chars[k];
        if ch != '/' {
            let d = digit_of(ch);
            if d <= 9 {
                i = i + d as usize;
            } else {
                let piece = char_to_piece(ch);
                let code: u8 = if piece < 6 { piece as u8 + 1 } else { piece as u8 - 6 + 1 + WHITE };
                result[i] = code;
                i = i + 1;
            }
        }
        k = k + 1;
    }
    proof {
        assert(s.take(s.len() as int) =~= s);
    }
    result
}

/// The board after lifting the piece of `m` from its origin onto its destination.
pub open spec fn lifted_board(g: GameData, m: PieceMove) -> Seq<u8> {
    let b0 = g.board@;
    b0.update(m.to as int, b0[m.from as int]).update(m.from as int, 0u8)
}

/// The piece standing on the destination once it is lifted there.
pub open spec fn moved_piece(g: GameData, m: PieceMove) -> u8 {
    lifted_board(g, m)[m.to as int]
}

/// `Game::make_move` can make `m`: its squares, the square of an en-passant
/// capture, and the rook squares of a castling king lie on the board.
pub open spec fn game_move_fits(g: GameData, m: PieceMove) -> bool {
    &&& m.from < 64
    &&& m.to < 64
    &&& (piece_kind(moved_piece(g, m)) == PAWN && m.en_passant_capture is Some) ==> m.en_passant_capture->0 < 64
    &&& (piece_kind(moved_piece(g, m)) == KING && m.short_castle) ==> 1 <= m.to && m.to + 1 < 64
    &&& (piece_kind(moved_piece(g, m)) == KING && !m.short_castle && m.long_castle) ==> 2 <= m.to && m.to + 1 < 64
}

/// The board after `m`: the piece moves, an en-passant capture removes its
/// pawn, a black pawn reaching the last row becomes `promotion_type`, and a
/// castling king brings its rook beside it.
pub open spec fn board_after(g: GameData, m: PieceMove) -> Seq<u8> {
    let b1 = lifted_board(g, m);
    let moved = b1[m.to as int];
    let to = m.to as int;
    let row = to / 8;
    if piece_kind(moved) == PAWN {
        match m.en_passant_capture {
            Some(e) => b1.update(e as int, 0u8),
            None => if (row == 0 || row == 7) && !g.whites_turn {
                b1.update(to, (moved & WHITE) | m.promotion_type)
            } else {
                b1
            },
        }
    } else if piece_kind(moved) == KING && m.short_castle {
        b1.update(to - 1, b1[to + 1]).update(to + 1, 0u8)
    } else if piece_kind(moved) == KING && m.long_castle {
        b1.update(to + 1, b1[to - 2]).update(to - 2, 0u8)
    } else {
        b1
    }
}

/// The game data after `m` (see `board_after`): the other side to move, `m`
/// as the last move, a white pawn on the last row waiting for promotion,
/// the castling flag of a corner left or entered cleared (the first corner
/// in the order a8, h8, a1, h1 that `m` touches), and both flags of a side
/// whose king moved cleared.
pub open spec fn game_after(g: GameData, m: PieceMove, r: GameData) -> bool {
    let moved = moved_piece(g, m);
    let to = m.to as int;
    let row = to / 8;
    let c0 = m.from == 0 || m.to == 0;
    let c7 = m.from == 7 || m.to == 7;
    let c56 = m.from == 56 || m.to == 56;
    let c63 = m.from == 63 || m.to == 63;
    let king_moved = piece_kind(moved) == KING;
    let white_king = king_moved && spec_is_white(board_after(g, m)[to]);
    let black_king = king_moved && !spec_is_white(board_after(g, m)[to]);
    &&& r.board@ == board_after(g, m)
    &&& r.whites_turn == !g.whites_turn
    &&& r.last_move == m
    &&& r.promoting == if piece_kind(moved) == PAWN && m.en_passant_capture is None && (row == 0 || row == 7) && g.whites_turn {
        Some(m.to)
    } else {
        g.promoting
    }
    &&& r.black_can_long_castle == (g.black_can_long_castle && !c0 && !black_king)
    &&& r.black_can_short_castle == (g.black_can_short_castle && !(!c0 && c7) && !black_king)
    &&& r.white_can_long_castle == (g.white_can_long_castle && !(!c0 && !c7 && c56) && !white_king)
    &&& r.white_can_short_castle == (g.white_can_short_castle && !(!c0 && !c7 && !c56 && c63) && !white_king)
}

impl Game {
    /// A new game from the piece field of a FEN: white to move, no move made
    /// yet, no promotion pending, every castling flag set.
    pub fn new(board: &'static str) -> (r: Self)
        requires
            fen_pieces_ok(board@),
            board@.len() <= usize::MAX / 16,
        ensures
            forall|i: int| 0 <= i < 64 ==> #[trigger] r.game_data.board@[i] == mailbox_piece(fen_fold(board@).0[i]),
            r.game_data.whites_turn,
            r.game_data.last_move == plain_move(0, 0),
            r.game_data.promoting is None,
            r.game_data.white_can_short_castle && r.game_data.white_can_long_castle,
            r.game_data.black_can_short_castle && r.game_data.black_can_long_castle,
            r.last_game_data == r.game_data,
    {
        let game_data = GameData {
            board: generate_starting_position(board),
            whites_turn: true,
            last_move: PieceMove::default(),
            promoting: None,
            white_can_short_castle: true,
            white_can_long_castle: true,
            black_can_short_castle: true,
            black_can_long_castle: true,
        };
        Game { game_data: game_data.clone(), last_game_data: game_data }
    }

    /// Makes `m` (see `game_after`), keeping the previous game data for undo.
    #[verifier::spinoff_prover]
    #[verifier::rlimit(40)]
    pub fn make_move(&mut self, m: PieceMove)
        requires
            game_move_fits(old(self).game_data, m),
        ensures
            game_after(old(self).game_data, m, final(self).game_data),
            final(self).last_game_data == old(self).game_data,
    {
        let ghost g = self.game_data;
        self.last_game_data = self.game_data.clone();
        self.game_data.last_move = m;
        let mut board = self.game_data.board;
        board[m.to] = board[m.from];
        board[m.from] = 0;
        proof {
            assert(board@ =~= lifted_board(g, m));
        }
        let p = Point::from_index(m.to);
        if m.from == 0 || m.to == 0 {
            self.game_data.black_can_long_castle = false;
        } else if m.from == 7 || m.to == 7 {
            self.game_data.black_can_short_castle = false;
        } else if m.from == 56 || m.to == 56 {
            self.game_data.white_can_long_castle = false;
        } else if m.from == 63 || m.to == 63 {
            self.game_data.white_can_short_castle = false;
        }
        let kind = board[m.to] & 0b0111;
        if kind == PAWN {
            match m.en_passant_capture {
                Some(i) => {
                    board[i] = 0;
                },
                None => {
                    if p.y == 0 || p.y == 7 {
                        if self.game_data.whites_turn {
                            self.game_data.promoting = Some(m.to);
                        } else {
                            board[m.to] = (board[m.to] & WHITE) | m.promotion_type;
                        }
                    }
                },
            }
            proof {
                assert(board@ =~= board_after(g, m));
            }
        } else if kind == KING {
            if m.short_castle {
                board[m.to - 1] = board[m.to + 1];
                board[m.to + 1] = 0;
            } else if m.long_castle {
                board[m.to + 1] = board[m.to - 2];
                board[m.to - 2] = 0;
            }
            proof {
                assert(board@ =~= board_after(g, m));
            }
            if is_white(board[m.to]) {
                self.game_data.white_can_short_castle = false;
                self.game_data.white_can_long_castle = false;
            } else {
                self.game_data.black_can_short_castle = false;
                self.game_data.black_can_long_castle = false;
            }
        } else {
            proof {
                assert(board@ =~= board_after(g, m));
            }
        }
        self.game_data.board = board;
        self.game_data.whites_turn = !self.game_data.whites_turn;
    }

    /// Restores the game data kept by the last `make_move`.
    pub fn undo_last_move(&mut self)
        ensures
            final(self).game_data == old(self).last_game_data,
            final(self).last_game_data == old(self).last_game_data,
    {
        self.game_data = self.last_game_data.clone();
    }

    /// Turns the pawn waiting for promotion into `piece` (keeping its colour bit).
    pub fn promote(&mut self, piece: u8)
        requires
            old(self).game_data.promoting is Some,
            old(self).game_data.promoting->0 < 64,
        ensures
            final(self).game_data.board@ == old(self).game_data.board@.update(
                old(self).game_data.promoting->0 as int,
                (old(self).game_data.board@[old(self).game_data.promoting->0 as int] & WHITE) | piece,
            ),
            final(self).game_data.promoting is None,
            final(self).game_data.whites_turn == old(self).game_data.whites_turn,
            final(self).game_data.last_move == old(self).game_data.last_move,
            final(self).game_data.white_can_short_castle == old(self).game_data.white_can_short_castle,
            final(self).game_data.white_can_long_castle == old(self).game_data.white_can_long_castle,
            final(self).game_data.black_can_short_castle == old(self).game_data.black_can_short_castle,
            final(self).game_data.black_can_long_castle == old(self).game_data.black_can_long_castle,
            final(self).last_game_data == old(self).last_game_data,
    {
        let p = self.game_data.promoting.unwrap();
        self.game_data.board[p] = (self.game_data.board[p] & WHITE) | piece;
        self.game_data.promoting = None;
    }
}

/// Making a move and taking it back gives back the game data from before the move.
pub proof fn lemma_game_make_undo(g0: Game, m: PieceMove, g1: Game, g2: Game)
    requires
        game_after(g0.game_data, m, g1.game_data),
        g1.last_game_data == g0.game_data,
        g2.game_data == g1.last_game_data,
    ensures
        g2.game_data == g0.game_data,
{
}

/// Square `(x, y)` lies on the board.
pub open spec fn on_board(x: int, y: int) -> bool {
    0 <= x < 8 && 0 <= y < 8
}

/// The square index of file `x` and row `y`.
pub open spec fn sq(x: int, y: int) -> int {
    x + 8 * y
}

/// The coordinate `n` steps from `c` in the unit direction `d` (-1, 0 or 1).
pub open spec fn ray_pt(c: int, n: int, d: int) -> int {
    if d > 0 { c + n } else if d < 0 { c - n } else { c }
}

/// The square `n` steps from `index` in direction `(dx, dy)`.
pub open spec fn ray_sq(index: int, dx: int, dy: int, n: int) -> int {
    sq(ray_pt(index % 8, n, dx), ray_pt(index / 8, n, dy))
}

/// Square `j` is empty or holds a piece of the other colour than `piece`.
pub open spec fn open_for(b: Seq<u8>, piece: u8, j: int) -> bool {
    b[j] == 0 || spec_is_white(b[j]) != spec_is_white(piece)
}

/// Square `j` holds a piece of the other colour than `piece`.
pub open spec fn enemy_of(b: Seq<u8>, piece: u8, j: int) -> bool {
    b[j] != 0 && spec_is_white(b[j]) != spec_is_white(piece)
}

/// The ray from `index` in direction `(dx, dy)` reaches its `n`-th square:
/// it is on the board and every square before it is empty.
pub open spec fn ray_reaches(b: Seq<u8>, index: int, dx: int, dy: int, n: int) -> bool {
    &&& n >= 1
    &&& on_board(ray_pt(index % 8, n, dx), ray_pt(index / 8, n, dy))
    &&& forall|k: int| 1 <= k < n ==> b[#[trigger] ray_sq(index, dx, dy, k)] == 0
}

/// `m` is a plain slide of the piece on `index` along direction `(dx, dy)`
/// onto an empty square or the first piece in the way, if that is an enemy.
pub open spec fn slide_move(b: Seq<u8>, index: int, dx: int, dy: int, m: PieceMove) -> bool {
    exists|n: int| #[trigger] ray_reaches(b, index, dx, dy, n) && m == plain_move(index, ray_sq(index, dx, dy, n))
        && open_for(b, b[index], ray_sq(index, dx, dy, n))
}

/// `m` is a diagonal slide of the piece on `index`.
pub open spec fn bishop_move(b: Seq<u8>, index: int, m: PieceMove) -> bool {
    ||| slide_move(b, index, -1, -1, m)
    ||| slide_move(b, index, -1, 1, m)
    ||| slide_move(b, index, 1, -1, m)
    ||| slide_move(b, index, 1, 1, m)
}

/// `m` is a straight slide of the piece on `index`.
pub open spec fn rook_move(b: Seq<u8>, index: int, m: PieceMove) -> bool {
    ||| slide_move(b, index, -1, 0, m)
    ||| slide_move(b, index, 1, 0, m)
    ||| slide_move(b, index, 0, -1, m)
    ||| slide_move(b, index, 0, 1, m)
}

/// `m` is a plain step of the piece on `index` to a square a knight's jump
/// (or, for `king`, one square) away that is empty or holds an enemy.
pub open spec fn step_to(b: Seq<u8>, index: int, king: bool, m: PieceMove) -> bool {
    let to = m.to as int;
    &&& m == plain_move(index, to)
    &&& to < 64
    &&& if king { crate::bitboards::king_step(index as u64, to as u64) } else { crate::bitboards::knight_step(index as u64, to as u64) }
    &&& open_for(b, b[index], to)
}

/// The move of a pawn from `from` to `to`: plain, or one of the promotions
/// to the types of `PROMOTABLE_PIECES` when `promotes`.
pub open spec fn pawn_step(from: int, to: int, promotes: bool, m: PieceMove) -> bool {
    if promotes {
        2 <= m.promotion_type <= 5 && m == PieceMove { promotion_type: m.promotion_type, ..plain_move(from, to) }
    } else {
        m == plain_move(from, to)
    }
}

/// A forward move of the pawn on `index`: one step onto an empty square
/// (promoting on the last row), or two from the starting row over empty squares.
pub open spec fn pawn_push(g: GameData, index: int, m: PieceMove) -> bool {
    let b = g.board@;
    let white = spec_is_white(b[index]);
    let y = index / 8;
    let f: int = if white { -8 } else { 8 };
    let promotes = if white { y == 1 } else { y == 6 };
    let start_row = if white { y == 6 } else { y == 1 };
    ||| b[index + f] == 0 && pawn_step(index, index + f, promotes, m)
    ||| b[index + f] == 0 && start_row && b[index + 2 * f] == 0
        && m == PieceMove { pawn_moving_twice: true, ..plain_move(index, index + 2 * f) }
}

/// A capture of the pawn on `index` one row forward and `dx` files aside,
/// onto an enemy (promoting on the last row).
pub open spec fn pawn_capture(g: GameData, index: int, dx: int, m: PieceMove) -> bool {
    let b = g.board@;
    let white = spec_is_white(b[index]);
    let y = index / 8;
    let dy: int = if white { -1 } else { 1 };
    let promotes = if white { y == 1 } else { y == 6 };
    &&& on_board(index % 8 + dx, y + dy)
    &&& enemy_of(b, b[index], sq(index % 8 + dx, y + dy))
    &&& pawn_step(index, sq(index % 8 + dx, y + dy), promotes, m)
}

/// An en-passant capture of the pawn on `index` beside the pawn that just
/// moved two squares (the left side is looked at first).
pub open spec fn pawn_en_passant(g: GameData, index: int, m: PieceMove) -> bool {
    let white = spec_is_white(g.board@[index]);
    let f: int = if white { -8 } else { 8 };
    let last = g.last_move;
    ||| last.pawn_moving_twice && last.to == index - 1
        && m == PieceMove { en_passant_capture: Some((index - 1) as usize), ..plain_move(index, index + f - 1) }
    ||| last.pawn_moving_twice && last.to != index - 1 && last.to == index + 1
        && m == PieceMove { en_passant_capture: Some((index + 1) as usize), ..plain_move(index, index + f + 1) }
}

/// The pseudo-legal moves of the pawn on `index` of game `g`, when it is not
/// on the row it would move beyond.
pub open spec fn pawn_moves(g: GameData, index: int, m: PieceMove) -> bool {
    let white = spec_is_white(g.board@[index]);
    let y = index / 8;
    &&& if white { y > 0 } else { y < 7 }
    &&& {
        ||| pawn_push(g, index, m)
        ||| pawn_capture(g, index, -1, m)
        ||| pawn_capture(g, index, 1, m)
        ||| pawn_en_passant(g, index, m)
    }
}

/// The castling moves of the king on `index`: two squares toward a corner
/// whose flag its side still holds, over empty squares (three toward a8/a1).
pub open spec fn castle_moves(g: GameData, index: int, m: PieceMove) -> bool {
    let b = g.board@;
    let white = spec_is_white(b[index]);
    let short_flag = if white { g.white_can_short_castle } else { g.black_can_short_castle };
    let long_flag = if white { g.white_can_long_castle } else { g.black_can_long_castle };
    ||| short_flag && b[index + 1] == 0 && b[index + 2] == 0 && m == PieceMove { short_castle: true, ..plain_move(index, index + 2) }
    ||| long_flag && b[index - 1] == 0 && b[index - 2] == 0 && b[index - 3] == 0
        && m == PieceMove { long_castle: true, ..plain_move(index, index - 2) }
}

/// The pseudo-legal moves of the piece on `index` of game `g`.
pub open spec fn game_pseudo_move(g: GameData, index: int, m: PieceMove) -> bool {
    let b = g.board@;
    let kind = piece_kind(b[index]);
    if kind == PAWN {
        pawn_moves(g, index, m)
    } else if kind == KNIGHT {
        step_to(b, index, false, m)
    } else if kind == BISHOP {
        bishop_move(b, index, m)
    } else if kind == ROOK {
        rook_move(b, index, m)
    } else if kind == QUEEN {
        bishop_move(b, index, m) || rook_move(b, index, m)
    } else if kind == KING {
        step_to(b, index, true, m) || castle_moves(g, index, m)
    } else {
        false
    }
}

impl GameData {
    /// The game can be played on: the last move, if it was a double pawn
    /// push, ended on rows 1 to 6, and while a side may still castle its
    /// king stands on its home square (e1 = 60 for white, e8 = 4 for black).
    pub open spec fn wf(&self) -> bool {
        &&& self.last_move.pawn_moving_twice ==> 8 <= self.last_move.to <= 55
        &&& forall|i: int| 0 <= i < 64 && piece_kind(#[trigger] self.board@[i]) == KING ==> {
            &&& (spec_is_white(self.board@[i]) && (self.white_can_short_castle || self.white_can_long_castle)) ==> i == 60
            &&& (!spec_is_white(self.board@[i]) && (self.black_can_short_castle || self.black_can_long_castle)) ==> i == 4
        }
    }
}

/// `m` is the plain move from `index` to a square of the ray in direction `(dx, dy)`.
pub open spec fn on_ray(index: int, dx: int, dy: int, m: PieceMove) -> bool {
    exists|n: int| n >= 1 && #[trigger] on_board(ray_pt(index % 8, n, dx), ray_pt(index / 8, n, dy))
        && m == plain_move(index, ray_sq(index, dx, dy, n))
}

/// A coordinate between two on-board points of a ray is on the board.
pub proof fn lemma_ray_between(c: int, n: int, q: int, d: int)
    requires
        0 <= c < 8,
        0 <= ray_pt(c, q, d) < 8,
        0 <= n <= q,
    ensures
        0 <= ray_pt(c, n, d) < 8,
{
}

/// A unit direction other than standing still.
pub open spec fn unit_dir(dx: int, dy: int) -> bool {
    -1 <= dx <= 1 && -1 <= dy <= 1 && !(dx == 0 && dy == 0)
}

/// Two different directions from one square share no square.
pub proof fn lemma_rays_disjoint(index: int, dx1: int, dy1: int, dx2: int, dy2: int, m: PieceMove)
    requires
        0 <= index < 64,
        unit_dir(dx1, dy1),
        unit_dir(dx2, dy2),
        !(dx1 == dx2 && dy1 == dy2),
        on_ray(index, dx1, dy1, m),
    ensures
        !on_ray(index, dx2, dy2, m),
{
    let n1 = choose|n: int| n >= 1 && #[trigger] on_board(ray_pt(index % 8, n, dx1), ray_pt(index / 8, n, dy1))
        && m == plain_move(index, ray_sq(index, dx1, dy1, n));
    if on_ray(index, dx2, dy2, m) {
        let n2 = choose|n: int| n >= 1 && #[trigger] on_board(ray_pt(index % 8, n, dx2), ray_pt(index / 8, n, dy2))
            && m == plain_move(index, ray_sq(index, dx2, dy2, n));
        let x1 = ray_pt(index % 8, n1, dx1);
        let y1 = ray_pt(index / 8, n1, dy1);
        let x2 = ray_pt(index % 8, n2, dx2);
        let y2 = ray_pt(index / 8, n2, dy2);
        assert(sq(x1, y1) == sq(x2, y2));
        assert(y1 == y2 && x1 == x2);
    }
}

/// `m` is the plain move from `index` to one of the first `n` squares of the ray.
pub open spec fn ray_prefix(index: int, dx: int, dy: int, n: int, m: PieceMove) -> bool {
    exists|k: int| 1 <= k <= n && m == plain_move(index, #[trigger] ray_sq(index, dx, dy, k))
}

/// The first `n` squares of the ray are on the board and empty.
pub open spec fn ray_clear(b: Seq<u8>, index: int, dx: int, dy: int, n: int) -> bool {
    &&& on_board(ray_pt(index % 8, n, dx), ray_pt(index / 8, n, dy))
    &&& forall|k: int| 1 <= k <= n ==> b[#[trigger] ray_sq(index, dx, dy, k)] == 0
}

/// Squares of a ray at different distances differ; all of them are on the ray.
pub proof fn lemma_ray_prefix_facts(index: int, dx: int, dy: int, n: int)
    requires
        0 <= index < 64,
        unit_dir(dx, dy),
        0 <= n,
        on_board(ray_pt(index % 8, n, dx), ray_pt(index / 8, n, dy)),
    ensures
        forall|k: int| 1 <= k < n ==> #[trigger] ray_sq(index, dx, dy, k) != ray_sq(index, dx, dy, n),
        forall|m: PieceMove| #[trigger] ray_prefix(index, dx, dy, n, m) ==> on_ray(index, dx, dy, m),
        n >= 1 ==> on_ray(index, dx, dy, plain_move(index, ray_sq(index, dx, dy, n))),
{
    let x0 = index % 8;
    let y0 = index / 8;
    assert forall|m: PieceMove| #[trigger] ray_prefix(index, dx, dy, n, m) implies on_ray(index, dx, dy, m) by {
        let k = choose|k: int| 1 <= k <= n && m == plain_move(index, #[trigger] ray_sq(index, dx, dy, k));
        lemma_ray_between(x0, k, n, dx);
        lemma_ray_between(y0, k, n, dy);
        assert(on_board(ray_pt(x0, k, dx), ray_pt(y0, k, dy)));
    }
    if n >= 1 {
        assert(on_board(ray_pt(x0, n, dx), ray_pt(y0, n, dy)));
    }
    assert forall|k: int| 1 <= k < n implies #[trigger] ray_sq(index, dx, dy, k) != ray_sq(index, dx, dy, n) by {
        lemma_ray_between(x0, k, n, dx);
        lemma_ray_between(y0, k, n, dy);
    }
}

/// Where the next square of the ray is off the board, the slides are the
/// moves to the first `n` squares, all empty.
pub proof fn lemma_slide_exit(b: Seq<u8>, index: int, dx: int, dy: int, n: int)
    requires
        0 <= index < 64,
        unit_dir(dx, dy),
        0 <= n,
        ray_clear(b, index, dx, dy, n),
        !on_board(ray_pt(index % 8, n + 1, dx), ray_pt(index / 8, n + 1, dy)),
    ensures
        forall|m: PieceMove| #[trigger] slide_move(b, index, dx, dy, m) <==> ray_prefix(index, dx, dy, n, m),
{
    let x0 = index % 8;
    let y0 = index / 8;
    assert forall|m: PieceMove| #[trigger] slide_move(b, index, dx, dy, m) <==> ray_prefix(index, dx, dy, n, m) by {
        if slide_move(b, index, dx, dy, m) {
            let q = choose|q: int| #[trigger] ray_reaches(b, index, dx, dy, q) && m == plain_move(index, ray_sq(index, dx, dy, q))
                && open_for(b, b[index], ray_sq(index, dx, dy, q));
            if q > n {
                lemma_ray_between(x0, n + 1, q, dx);
                lemma_ray_between(y0, n + 1, q, dy);
            }
        }
        if ray_prefix(index, dx, dy, n, m) {
            let k = choose|k: int| 1 <= k <= n && m == plain_move(index, #[trigger] ray_sq(index, dx, dy, k));
            lemma_ray_between(x0, k, n, dx);
            lemma_ray_between(y0, k, n, dy);
            assert(ray_reaches(b, index, dx, dy, k));
        }
    }
}

/// Where the `n`-th square of the ray holds a piece, the slides are the
/// moves to the empty squares before it, and to it when it holds an enemy.
pub proof fn lemma_slide_block(b: Seq<u8>, index: int, dx: int, dy: int, n: int)
    requires
        0 <= index < 64,
        unit_dir(dx, dy),
        1 <= n,
        ray_clear(b, index, dx, dy, n - 1),
        on_board(ray_pt(index % 8, n, dx), ray_pt(index / 8, n, dy)),
        b[ray_sq(index, dx, dy, n)] != 0,
    ensures
        forall|m: PieceMove| #[trigger] slide_move(b, index, dx, dy, m) <==> (ray_prefix(index, dx, dy, n - 1, m) || (open_for(
            b, b[index], ray_sq(index, dx, dy, n)) && m == plain_move(index, ray_sq(index, dx, dy, n)))),
{
    let x0 = index % 8;
    let y0 = index / 8;
    assert(ray_reaches(b, index, dx, dy, n));
    assert forall|m: PieceMove| #[trigger] slide_move(b, index, dx, dy, m) <==> (ray_prefix(index, dx, dy, n - 1, m) || (open_for(
        b, b[index], ray_sq(index, dx, dy, n)) && m == plain_move(index, ray_sq(index, dx, dy, n)))) by {
        if slide_move(b, index, dx, dy, m) {
            let q = choose|q: int| #[trigger] ray_reaches(b, index, dx, dy, q) && m == plain_move(index, ray_sq(index, dx, dy, q))
                && open_for(b, b[index], ray_sq(index, dx, dy, q));
            if q > n {
                assert(b[ray_sq(index, dx, dy, n)] == 0);
            }
        }
        if ray_prefix(index, dx, dy, n - 1, m) {
            let k = choose|k: int| 1 <= k <= n - 1 && m == plain_move(index, #[trigger] ray_sq(index, dx, dy, k));
            lemma_ray_between(x0, k, n, dx);
            lemma_ray_between(y0, k, n, dy);
            assert(ray_reaches(b, index, dx, dy, k));
        }
    }
}

/// The slides of the piece on `index` along the ray `(dx, dy)` from its
/// `k`-th square on, in order: the empty squares, then the first piece in
/// the way when it is an enemy.
pub open spec fn ray_moves_from(b: Seq<u8>, index: int, dx: int, dy: int, k: int) -> Seq<PieceMove>
    decreases 8 - k,
{
    if k < 1 || k >= 8 || !on_board(ray_pt(index % 8, k, dx), ray_pt(index / 8, k, dy)) {
        Seq::empty()
    } else if b[ray_sq(index, dx, dy, k)] == 0 {
        seq![plain_move(index, ray_sq(index, dx, dy, k))] + ray_moves_from(b, index, dx, dy, k + 1)
    } else if open_for(b, b[index], ray_sq(index, dx, dy, k)) {
        seq![plain_move(index, ray_sq(index, dx, dy, k))]
    } else {
        Seq::empty()
    }
}

impl Game {
    /// Pushes the slides of the piece on `index` along direction `dir`.
    #[verifier::spinoff_prover]
    #[verifier::rlimit(40)]
    fn push_slides(&self, result: &mut Vec<PieceMove>, index: usize, dir: Point)
        requires
            index < 64,
            unit_dir(dir.x as int, dir.y as int),
            old(result)@.no_duplicates(),
            forall|k: int| 0 <= k < old(result)@.len() ==> !on_ray(index as int, dir.x as int, dir.y as int, #[trigger] old(result)@[k]),
        ensures
            final(result)@.no_duplicates(),
            forall|m: PieceMove| #[trigger] final(result)@.contains(m) <==> (old(result)@.contains(m) || slide_move(
                self.game_data.board@, index as int, dir.x as int, dir.y as int, m)),
            forall|m: PieceMove| #[trigger] final(result)@.contains(m) ==> (old(result)@.contains(m) || on_ray(
                index as int, dir.x as int, dir.y as int, m)),
            final(result)@ == old(result)@ + ray_moves_from(self.game_data.board@, index as int, dir.x as int, dir.y as int, 1),
    {
        let ghost b = self.game_data.board@;
        let ghost start = result@;
        let ghost dx = dir.x as int;
        let ghost dy = dir.y as int;
        let ghost x0 = index as int % 8;
        let ghost y0 = index as int / 8;
        let mut p = Point::from_index(index);
        let ghost mut n: int = 0;
        loop
            invariant_except_break
                index < 64,
                unit_dir(dx, dy),
                dx == dir.x,
                dy == dir.y,
                x0 == index as int % 8,
                y0 == index as int / 8,
                b == self.game_data.board@,
                p.x == ray_pt(x0, n, dx),
                p.y == ray_pt(y0, n, dy),
                0 <= n <= 7,
                ray_clear(b, index as int, dx, dy, n),
                result@.no_duplicates(),
                forall|k: int| 0 <= k < start.len() ==> !on_ray(index as int, dx, dy, #[trigger] start[k]),
                forall|m: PieceMove| #[trigger] result@.contains(m) <==> (start.contains(m) || ray_prefix(index as int, dx, dy, n, m)),
                result@ + ray_moves_from(b, index as int, dx, dy, n + 1) == start + ray_moves_from(b, index as int, dx, dy, 1),
            ensures
                result@.no_duplicates(),
                forall|m: PieceMove| #[trigger] result@.contains(m) <==> (start.contains(m) || slide_move(b, index as int, dx, dy, m)),
                forall|m: PieceMove| #[trigger] result@.contains(m) ==> (start.contains(m) || on_ray(index as int, dx, dy, m)),
                result@ == start + ray_moves_from(b, index as int, dx, dy, 1),
            decreases 7 - n,
        {
            proof {
                lemma_ray_prefix_facts(index as int, dx, dy, n);
            }
            if !(p.x + dir.x >= 0 && p.x + dir.x < 8 && p.y + dir.y >= 0 && p.y + dir.y < 8) {
                proof {
                    lemma_slide_exit(b, index as int, dx, dy, n);
                    assert(ray_moves_from(b, index as int, dx, dy, n + 1) =~= Seq::<PieceMove>::empty());
                    assert(result@ =~= result@ + Seq::<PieceMove>::empty());
                }
                break;
            }
            p = Point::new(p.x + dir.x, p.y + dir.y);
            let new_index = (p.x + p.y * 8) as usize;
            let ghost prev_n = n;
            proof {
                n = n + 1;
                assert(new_index as int == ray_sq(index as int, dx, dy, n));
                lemma_ray_prefix_facts(index as int, dx, dy, n);
            }
            let m = PieceMove::plain(index, new_index);
            let ghost prev = result@;
            proof {
                assert(!prev.contains(m)) by {
                    if prev.contains(m) {
                        if start.contains(m) {
                            let k = choose|k: int| 0 <= k < start.len() && start[k] == m;
                        } else {
                            let k = choose|k: int| 1 <= k <= prev_n && m == plain_move(index as int, #[trigger] ray_sq(index as int, dx, dy, k));
                        }
                    }
                }
                crate::movegen::lemma_push_no_duplicates(prev, m);
                assert forall|mm: PieceMove| #[trigger] ray_prefix(index as int, dx, dy, n, mm) <==> (ray_prefix(index as int, dx, dy, prev_n, mm)
                    || mm == m) by {
                    if ray_prefix(index as int, dx, dy, n, mm) && mm != m {
                        let k = choose|k: int| 1 <= k <= n && mm == plain_move(index as int, #[trigger] ray_sq(index as int, dx, dy, k));
                        assert(k <= prev_n);
                    }
                }
            }
            if new_index == index {
                continue;
            }
            if self.game_data.board[new_index] == 0 {
                result.push(m);
                proof {
                    assert(ray_moves_from(b, index as int, dx, dy, n) == seq![m] + ray_moves_from(b, index as int, dx, dy, n + 1));
                    assert(prev + ray_moves_from(b, index as int, dx, dy, n) =~= result@ + ray_moves_from(b, index as int, dx, dy, n + 1));
                    assert forall|mm: PieceMove| #[trigger] result@.contains(mm) <==> (start.contains(mm) || ray_prefix(index as int, dx, dy, n, mm)) by {
                        crate::movegen::lemma_push_contains(prev, m, mm);
                    }
                }
            } else {
                proof {
                    lemma_slide_block(b, index as int, dx, dy, n);
                }
                if is_white(self.game_data.board[new_index]) != is_white(self.game_data.board[index]) {
                    result.push(m);
                    proof {
                        assert(ray_moves_from(b, index as int, dx, dy, n) == seq![m]);
                        assert(result@ =~= prev + seq![m]);
                        assert forall|mm: PieceMove| #[trigger] result@.contains(mm) <==> (start.contains(mm) || slide_move(b, index as int, dx, dy, mm)) by {
                            crate::movegen::lemma_push_contains(prev, m, mm);
                        }
                        assert forall|mm: PieceMove| #[trigger] result@.contains(mm) implies (start.contains(mm) || on_ray(index as int, dx, dy, mm)) by {
                            crate::movegen::lemma_push_contains(prev, m, mm);
                        }
                    }
                } else {
                    proof {
                        assert(ray_moves_from(b, index as int, dx, dy, n) =~= Seq::<PieceMove>::empty());
                        assert(result@ =~= result@ + Seq::<PieceMove>::empty());
                    }
                }
                break;
            }
        }
    }
}

/// `m` is a slide of the piece on `index` along one of the first `n` directions of `dirs`.
pub open spec fn slide_along(b: Seq<u8>, index: int, dirs: Seq<Point>, n: int, m: PieceMove) -> bool {
    exists|k: int| 0 <= k < n && #[trigger] slide_move(b, index, dirs[k].x as int, dirs[k].y as int, m)
}

/// `m` lies on the ray of one of the first `n` directions of `dirs`.
pub open spec fn on_rays(index: int, dirs: Seq<Point>, n: int, m: PieceMove) -> bool {
    exists|k: int| 0 <= k < n && #[trigger] on_ray(index, dirs[k].x as int, dirs[k].y as int, m)
}

/// The diagonal directions, in the order the bishop tries them.
pub open spec fn bishop_dirs() -> Seq<Point> {
    seq![Point { x: -1i8, y: -1i8 }, Point { x: -1i8, y: 1i8 }, Point { x: 1i8, y: -1i8 }, Point { x: 1i8, y: 1i8 }]
}

/// The straight directions, in the order the rook tries them.
pub open spec fn rook_dirs() -> Seq<Point> {
    seq![Point { x: -1i8, y: 0i8 }, Point { x: 1i8, y: 0i8 }, Point { x: 0i8, y: -1i8 }, Point { x: 0i8, y: 1i8 }]
}

/// All eight directions, in the order the queen tries them.
pub open spec fn queen_dirs() -> Seq<Point> {
    seq![
        Point { x: -1i8, y: -1i8 }, Point { x: 0i8, y: -1i8 }, Point { x: 1i8, y: -1i8 }, Point { x: -1i8, y: 0i8 },
        Point { x: 1i8, y: 0i8 }, Point { x: -1i8, y: 1i8 }, Point { x: 0i8, y: 1i8 }, Point { x: 1i8, y: 1i8 },
    ]
}

/// Distinct unit directions.
pub open spec fn distinct_dirs(dirs: Seq<Point>) -> bool {
    &&& forall|k: int| 0 <= k < dirs.len() ==> unit_dir((#[trigger] dirs[k]).x as int, dirs[k].y as int)
    &&& forall|k: int, l: int| 0 <= k < l < dirs.len() ==> !((#[trigger] dirs[k]).x == (#[trigger] dirs[l]).x && dirs[k].y == dirs[l].y)
}

/// The slides of the piece on `index` along the first `n` directions of
/// `dirs`, direction by direction.
pub open spec fn slides_list(b: Seq<u8>, index: int, dirs: Seq<Point>, n: int) -> Seq<PieceMove>
    decreases n,
{
    if n <= 0 {
        Seq::empty()
    } else {
        slides_list(b, index, dirs, n - 1) + ray_moves_from(b, index, dirs[n - 1].x as int, dirs[n - 1].y as int, 1)
    }
}

impl Game {
    /// Pushes the slides of the piece on `index` along every direction of `dirs`.
    fn push_all_slides(&self, result: &mut Vec<PieceMove>, index: usize, dirs: &Vec<Point>)
        requires
            index < 64,
            distinct_dirs(dirs@),
            old(result)@.len() == 0,
        ensures
            final(result)@.no_duplicates(),
            forall|m: PieceMove| #[trigger] final(result)@.contains(m) <==> slide_along(self.game_data.board@, index as int, dirs@,
                dirs@.len() as int, m),
            final(result)@ == slides_list(self.game_data.board@, index as int, dirs@, dirs@.len() as int),
    {
        let ghost b = self.game_data.board@;
        let mut i: usize = 0;
        while i < dirs.len()
            invariant
                index < 64,
                i <= dirs@.len(),
                distinct_dirs(dirs@),
                b == self.game_data.board@,
                result@.no_duplicates(),
                forall|m: PieceMove| #[trigger] result@.contains(m) <==> slide_along(b, index as int, dirs@, i as int, m),
                forall|m: PieceMove| #[trigger] result@.contains(m) ==> on_rays(index as int, dirs@, i as int, m),
                result@ == slides_list(b, index as int, dirs@, i as int),
            decreases dirs@.len() - i,
        {
            let dir = dirs[i];
            let ghost prev = result@;
            proof {
                assert forall|k: int| 0 <= k < prev.len() implies !on_ray(index as int, dir.x as int, dir.y as int, #[trigger] prev[k]) by {
                    assert(prev.contains(prev[k]));
                    let l = choose|l: int| 0 <= l < i && #[trigger] on_ray(index as int, dirs@[l].x as int, dirs@[l].y as int, prev[k]);
                    assert(dirs@[l] != dirs@[i as int] || l == i);
                    lemma_rays_disjoint(index as int, dirs@[l].x as int, dirs@[l].y as int, dir.x as int, dir.y as int, prev[k]);
                }
            }
            self.push_slides(result, index, dir);
            proof {
                assert forall|m: PieceMove| #[trigger] result@.contains(m) <==> slide_along(b, index as int, dirs@, i + 1, m) by {
                    if slide_along(b, index as int, dirs@, i + 1, m) {
                        let k = choose|k: int| 0 <= k < i + 1 && #[trigger] slide_move(b, index as int, dirs@[k].x as int, dirs@[k].y as int, m);
                        if k < i {
                            assert(slide_along(b, index as int, dirs@, i as int, m));
                        }
                    }
                    if result@.contains(m) && !prev.contains(m) {
                        assert(slide_move(b, index as int, dirs@[i as int].x as int, dirs@[i as int].y as int, m));
                    }
                }
                assert forall|m: PieceMove| #[trigger] result@.contains(m) implies on_rays(index as int, dirs@, i + 1, m) by {
                    if prev.contains(m) {
                        let k = choose|k: int| 0 <= k < i && #[trigger] on_ray(index as int, dirs@[k].x as int, dirs@[k].y as int, m);
                    } else {
                        assert(on_ray(index as int, dirs@[i as int].x as int, dirs@[i as int].y as int, m));
                    }
                }
            }
            i = i + 1;
        }
    }
}

/// The `k`-th of the eight step offsets of a knight, or of a king.
pub open spec fn step_offset(king: bool, k: int) -> (int, int) {
    if king {
        if k == 0 { (-1, -1) } else if k == 1 { (0, -1) } else if k == 2 { (1, -1) } else if k == 3 { (-1, 0) }
        else if k == 4 { (1, 0) } else if k == 5 { (-1, 1) } else if k == 6 { (0, 1) } else { (1, 1) }
    } else {
        if k == 0 { (-1, 2) } else if k == 1 { (1, 2) } else if k == 2 { (-1, -2) } else if k == 3 { (1, -2) }
        else if k == 4 { (2, -1) } else if k == 5 { (2, 1) } else if k == 6 { (-2, -1) } else { (-2, 1) }
    }
}

/// Square `j` is the on-board square the `k`-th step offset leads to from `index`.
pub open spec fn step_target(index: int, king: bool, k: int, j: int) -> bool {
    let (dx, dy) = step_offset(king, k);
    on_board(index % 8 + dx, index / 8 + dy) && j == sq(index % 8 + dx, index / 8 + dy)
}

/// The step patterns are the squares the eight offsets lead to.
pub proof fn lemma_step_targets(index: int, king: bool, j: int)
    requires
        0 <= index < 64,
        0 <= j < 64,
    ensures
        (if king { crate::bitboards::king_step(index as u64, j as u64) } else { crate::bitboards::knight_step(index as u64, j as u64) })
            <==> exists|k: int| 0 <= k < 8 && #[trigger] step_target(index, king, k, j),
{
    let x = index % 8;
    let y = index / 8;
    let fj = j % 8;
    let rj = j / 8;
    assert(j == sq(fj, rj));
    if exists|k: int| 0 <= k < 8 && #[trigger] step_target(index, king, k, j) {
        let k = choose|k: int| 0 <= k < 8 && #[trigger] step_target(index, king, k, j);
        let (dx, dy) = step_offset(king, k);
        assert(fj == x + dx && rj == y + dy);
    }
    if king && crate::bitboards::king_step(index as u64, j as u64) {
        let dx = fj - x;
        let dy = rj - y;
        let k: int = if dx == -1 && dy == -1 { 0 } else if dx == 0 && dy == -1 { 1 } else if dx == 1 && dy == -1 { 2 }
            else if dx == -1 && dy == 0 { 3 } else if dx == 1 && dy == 0 { 4 } else if dx == -1 && dy == 1 { 5 }
            else if dx == 0 && dy == 1 { 6 } else { 7 };
        assert(step_target(index, king, k, j));
    }
    if !king && crate::bitboards::knight_step(index as u64, j as u64) {
        let dx = fj - x;
        let dy = rj - y;
        let k: int = if dx == -1 && dy == 2 { 0 } else if dx == 1 && dy == 2 { 1 } else if dx == -1 && dy == -2 { 2 }
            else if dx == 1 && dy == -2 { 3 } else if dx == 2 && dy == -1 { 4 } else if dx == 2 && dy == 1 { 5 }
            else if dx == -2 && dy == -1 { 6 } else { 7 };
        assert(step_target(index, king, k, j));
    }
}

/// The square the `k`-th step offset leads to from `index` (on or off the board).
pub open spec fn step_square(index: int, king: bool, k: int) -> int {
    let (dx, dy) = step_offset(king, k);
    sq(index % 8 + dx, index / 8 + dy)
}

/// The steps of the piece on `index` by the first `n` offsets, in offset
/// order, onto squares on the board that are empty or hold an enemy.
pub open spec fn steps_list(b: Seq<u8>, index: int, king: bool, n: int) -> Seq<PieceMove>
    decreases n,
{
    if n <= 0 {
        Seq::empty()
    } else {
        let (dx, dy) = step_offset(king, n - 1);
        let j = step_square(index, king, n - 1);
        steps_list(b, index, king, n - 1) + if on_board(index % 8 + dx, index / 8 + dy) && open_for(b, b[index], j) {
            seq![plain_move(index, j)]
        } else {
            Seq::empty()
        }
    }
}

impl Game {
    /// Pushes the plain steps of the piece on `index` (a king's when `king`,
    /// else a knight's) onto empty squares and enemies.
    fn push_steps(&self, result: &mut Vec<PieceMove>, index: usize, king: bool)
        requires
            index < 64,
            old(result)@.len() == 0,
        ensures
            final(result)@.no_duplicates(),
            forall|m: PieceMove| #[trigger] final(result)@.contains(m) <==> step_to(self.game_data.board@, index as int, king, m),
            final(result)@ == steps_list(self.game_data.board@, index as int, king, 8),
    {
        let ghost b = self.game_data.board@;
        let offsets: [Point; 8] = if king {
            [
                Point::new(-1, -1),
                Point::new(0, -1),
                Point::new(1, -1),
                Point::new(-1, 0),
                Point::new(1, 0),
                Point::new(-1, 1),
                Point::new(0, 1),
                Point::new(1, 1),
            ]
        } else {
            [
                Point::new(-1, 2),
                Point::new(1, 2),
                Point::new(-1, -2),
                Point::new(1, -2),
                Point::new(2, -1),
                Point::new(2, 1),
                Point::new(-2, -1),
                Point::new(-2, 1),
            ]
        };
        let p = Point::from_index(index);
        let mut i: usize = 0;
        while i < 8
            invariant
                index < 64,
                i <= 8,
                b == self.game_data.board@,
                p.x == index as int % 8,
                p.y == index as int / 8,
                forall|k: int| 0 <= k < 8 ==> (#[trigger] offsets@[k]).x == step_offset(king, k).0 && offsets@[k].y == step_offset(king, k).1,
                result@.no_duplicates(),
                forall|m: PieceMove| #[trigger] result@.contains(m) <==> (m == plain_move(index as int, m.to as int)
                    && open_for(b, b[index as int], m.to as int) && exists|k: int| 0 <= k < i && #[trigger] step_target(index as int, king, k, m.to as int)),
                result@ == steps_list(b, index as int, king, i as int),
            decreases 8 - i,
        {
            let dir = offsets[i];
            let nx = p.x + dir.x;
            let ny = p.y + dir.y;
            let ghost prev = result@;
            if nx < 0 || nx > 7 || ny < 0 || ny > 7 {
                proof {
                    assert forall|m: PieceMove| #[trigger] result@.contains(m) <==> (m == plain_move(index as int, m.to as int)
                        && open_for(b, b[index as int], m.to as int) && exists|k: int| 0 <= k < i + 1 && #[trigger] step_target(index as int, king, k, m.to as int)) by {
                        if exists|k: int| 0 <= k < i + 1 && #[trigger] step_target(index as int, king, k, m.to as int) {
                            let k = choose|k: int| 0 <= k < i + 1 && #[trigger] step_target(index as int, king, k, m.to as int);
                            assert(k != i);
                        }
                    }
                }
                i = i + 1;
                continue;
            }
            let new_index = (nx + ny * 8) as usize;
            proof {
                assert(step_target(index as int, king, i as int, new_index as int));
            }
            if self.game_data.board[new_index] == 0 || is_white(self.game_data.board[new_index]) != is_white(self.game_data.board[index]) {
                let m = PieceMove::plain(index, new_index);
                proof {
                    assert(!prev.contains(m)) by {
                        if prev.contains(m) {
                            let k = choose|k: int| 0 <= k < i && #[trigger] step_target(index as int, king, k, new_index as int);
                        }
                    }
                    crate::movegen::lemma_push_no_duplicates(prev, m);
                }
                result.push(m);
                proof {
                    assert forall|mm: PieceMove| #[trigger] result@.contains(mm) <==> (mm == plain_move(index as int, mm.to as int)
                        && open_for(b, b[index as int], mm.to as int) && exists|k: int| 0 <= k < i + 1 && #[trigger] step_target(index as int, king, k, mm.to as int)) by {
                        crate::movegen::lemma_push_contains(prev, m, mm);
                        if exists|k: int| 0 <= k < i + 1 && #[trigger] step_target(index as int, king, k, mm.to as int) {
                            let k = choose|k: int| 0 <= k < i + 1 && #[trigger] step_target(index as int, king, k, mm.to as int);
                            if k == i {
                                assert(mm.to == new_index);
                            }
                        }
                    }
                }
            } else {
                proof {
                    assert forall|mm: PieceMove| #[trigger] result@.contains(mm) <==> (mm == plain_move(index as int, mm.to as int)
                        && open_for(b, b[index as int], mm.to as int) && exists|k: int| 0 <= k < i + 1 && #[trigger] step_target(index as int, king, k, mm.to as int)) by {
                        if exists|k: int| 0 <= k < i + 1 && #[trigger] step_target(index as int, king, k, mm.to as int) {
                            let k = choose|k: int| 0 <= k < i + 1 && #[trigger] step_target(index as int, king, k, mm.to as int);
                            if k == i {
                                assert(mm.to == new_index);
                            }
                        }
                    }
                }
            }
            i = i + 1;
        }
        proof {
            assert forall|m: PieceMove| #[trigger] result@.contains(m) <==> step_to(b, index as int, king, m) by {
                if m.to < 64 {
                    lemma_step_targets(index as int, king, m.to as int);
                }
                if result@.contains(m) {
                    let k = choose|k: int| 0 <= k < 8 && #[trigger] step_target(index as int, king, k, m.to as int);
                    lemma_step_targets(index as int, king, m.to as int);
                }
            }
        }
    }
}

/// The pawn moves from `from` to `to`: the four promotions, knight first,
/// when `promotes`, else the plain move.
pub open spec fn pawn_step_list(from: int, to: int, promotes: bool) -> Seq<PieceMove> {
    if promotes {
        seq![
            PieceMove { promotion_type: 2, ..plain_move(from, to) },
            PieceMove { promotion_type: 3, ..plain_move(from, to) },
            PieceMove { promotion_type: 4, ..plain_move(from, to) },
            PieceMove { promotion_type: 5, ..plain_move(from, to) },
        ]
    } else {
        seq![plain_move(from, to)]
    }
}

/// Pushes the pawn move from `from` to `to`: the four promotions when `promotes`, else the plain move.
fn push_pawn_step(result: &mut Vec<PieceMove>, from: usize, to: usize, promotes: bool)
    requires
        old(result)@.no_duplicates(),
        forall|k: int| 0 <= k < old(result)@.len() ==> !pawn_step(from as int, to as int, promotes, #[trigger] old(result)@[k]),
    ensures
        final(result)@.no_duplicates(),
        forall|m: PieceMove| #[trigger] final(result)@.contains(m) <==> (old(result)@.contains(m) || pawn_step(from as int, to as int, promotes, m)),
        final(result)@ == old(result)@ + pawn_step_list(from as int, to as int, promotes),
{
    let ghost start = result@;
    if promotes {
        let types = PROMOTABLE_PIECES;
        let mut i: usize = 0;
        while i < 4
            invariant
                i <= 4,
                promotes,
                types@ == seq![2u8, 3u8, 4u8, 5u8],
                result@.no_duplicates(),
                forall|k: int| 0 <= k < start.len() ==> !pawn_step(from as int, to as int, promotes, #[trigger] start[k]),
                forall|m: PieceMove| #[trigger] result@.contains(m) <==> (start.contains(m) || (pawn_step(from as int, to as int, promotes, m)
                    && m.promotion_type < i + 2)),
                result@ == start + pawn_step_list(from as int, to as int, promotes).take(i as int),
            decreases 4 - i,
        {
            let m = PieceMove { promotion_type: types[i], ..PieceMove::plain(from, to) };
            let ghost prev = result@;
            proof {
                assert(!prev.contains(m)) by {
                    if prev.contains(m) {
                        if start.contains(m) {
                            let k = choose|k: int| 0 <= k < start.len() && start[k] == m;
                        }
                    }
                }
                crate::movegen::lemma_push_no_duplicates(prev, m);
            }
            result.push(m);
            proof {
                assert forall|mm: PieceMove| #[trigger] result@.contains(mm) <==> (start.contains(mm) || (pawn_step(from as int, to as int, promotes, mm)
                    && mm.promotion_type < i + 3)) by {
                    crate::movegen::lemma_push_contains(prev, m, mm);
                    if pawn_step(from as int, to as int, promotes, mm) && mm.promotion_type == i + 2 {
                        assert(mm == m);
                    }
                }
            }
            proof {
                assert(pawn_step_list(from as int, to as int, promotes).take(i + 1) =~= pawn_step_list(from as int, to as int, promotes).take(
                    i as int,
                ).push(m));
            }
            i = i + 1;
        }
        proof {
            assert(pawn_step_list(from as int, to as int, promotes).take(4) =~= pawn_step_list(from as int, to as int, promotes));
        }
    } else {
        let m = PieceMove::plain(from, to);
        proof {
            assert(!start.contains(m)) by {
                if start.contains(m) {
                    let k = choose|k: int| 0 <= k < start.len() && start[k] == m;
                }
            }
            crate::movegen::lemma_push_no_duplicates(start, m);
        }
        result.push(m);
        proof {
            assert forall|mm: PieceMove| #[trigger] result@.contains(mm) <==> (start.contains(mm) || pawn_step(from as int, to as int, promotes, mm)) by {
                crate::movegen::lemma_push_contains(start, m, mm);
            }
        }
    }
}

/// Pushes `m` onto a list without duplicates that does not hold it.
fn push_new(result: &mut Vec<PieceMove>, m: PieceMove)
    requires
        old(result)@.no_duplicates(),
        !old(result)@.contains(m),
    ensures
        final(result)@.no_duplicates(),
        forall|mm: PieceMove| #[trigger] final(result)@.contains(mm) <==> (old(result)@.contains(mm) || mm == m),
        final(result)@ == old(result)@.push(m),
{
    proof {
        crate::movegen::lemma_push_no_duplicates(result@, m);
    }
    let ghost prev = result@;
    result.push(m);
    proof {
        assert forall|mm: PieceMove| #[trigger] result@.contains(mm) <==> (prev.contains(mm) || mm == m) by {
            crate::movegen::lemma_push_contains(prev, m, mm);
        }
    }
}

/// The forward moves of the pawn on `index`, in order: the step (as its
/// promotions on the last row), then the double step from the starting row.
pub open spec fn pawn_push_list(g: GameData, index: int) -> Seq<PieceMove> {
    let b = g.board@;
    let white = spec_is_white(b[index]);
    let y = index / 8;
    let f: int = if white { -8 } else { 8 };
    let promotes = if white { y == 1 } else { y == 6 };
    let start_row = if white { y == 6 } else { y == 1 };
    if b[index + f] == 0 {
        pawn_step_list(index, index + f, promotes) + if start_row && b[index + 2 * f] == 0 {
            seq![PieceMove { pawn_moving_twice: true, ..plain_move(index, index + 2 * f) }]
        } else {
            Seq::empty()
        }
    } else {
        Seq::empty()
    }
}

/// The capture of the pawn on `index` one file to the side `dx`, if there is one.
pub open spec fn pawn_capture_list(g: GameData, index: int, dx: int) -> Seq<PieceMove> {
    let b = g.board@;
    let white = spec_is_white(b[index]);
    let y = index / 8;
    let dy: int = if white { -1 } else { 1 };
    let promotes = if white { y == 1 } else { y == 6 };
    if on_board(index % 8 + dx, y + dy) && enemy_of(b, b[index], sq(index % 8 + dx, y + dy)) {
        pawn_step_list(index, sq(index % 8 + dx, y + dy), promotes)
    } else {
        Seq::empty()
    }
}

/// The en-passant capture of the pawn on `index`, if there is one.
pub open spec fn pawn_en_passant_list(g: GameData, index: int) -> Seq<PieceMove> {
    let white = spec_is_white(g.board@[index]);
    let f: int = if white { -8 } else { 8 };
    let last = g.last_move;
    if last.pawn_moving_twice && last.to == index - 1 {
        seq![PieceMove { en_passant_capture: Some((index - 1) as usize), ..plain_move(index, index + f - 1) }]
    } else if last.pawn_moving_twice && last.to == index + 1 {
        seq![PieceMove { en_passant_capture: Some((index + 1) as usize), ..plain_move(index, index + f + 1) }]
    } else {
        Seq::empty()
    }
}

/// The moves of the pawn on `index` in the order they are generated: forward
/// moves, the capture to the left, the capture to the right, en passant.
pub open spec fn pawn_list(g: GameData, index: int) -> Seq<PieceMove> {
    let white = spec_is_white(g.board@[index]);
    let y = index / 8;
    if if white { y > 0 } else { y < 7 } {
        pawn_push_list(g, index) + pawn_capture_list(g, index, -1) + pawn_capture_list(g, index, 1) + pawn_en_passant_list(g, index)
    } else {
        Seq::empty()
    }
}

impl Game {
    /// The pseudo-legal moves of the pawn on `index` (see `pawn_moves`).
    #[verifier::spinoff_prover]
    fn add_pawn_moves(&self, result: &mut Vec<PieceMove>, index: usize)
        requires
            index < 64,
            self.game_data.wf(),
            old(result)@.len() == 0,
        ensures
            final(result)@.no_duplicates(),
            forall|m: PieceMove| #[trigger] final(result)@.contains(m) <==> pawn_moves(self.game_data, index as int, m),
            final(result)@ == pawn_list(self.game_data, index as int),
    {
        let ghost g = self.game_data;
        let ghost b = g.board@;
        let p = Point::from_index(index);
        let white = is_white(self.game_data.board[index]);
        let on_board_ahead = if white { p.y > 0 } else { p.y < 7 };
        if !on_board_ahead {
            proof {
                assert(result@ =~= pawn_list(g, index as int));
            }
            return;
        }
        let will_promote = if white { p.y - 1 == 0 } else { p.y + 1 == 7 };
        let ahead = if white { index - 8 } else { index + 8 };
        if self.game_data.board[ahead] == 0 {
            push_pawn_step(result, index, ahead, will_promote);
            // The row test comes first, so the square two ahead is only formed on the starting row.
            let on_start_row = if white { p.y == 6 } else { p.y == 1 };
            if on_start_row {
                let two_ahead = if white { index - 16 } else { index + 16 };
                if two_ahead < 63 && self.game_data.board[two_ahead] == 0 {
                    let m = PieceMove { pawn_moving_twice: true, ..PieceMove::plain(index, two_ahead) };
                    proof {
                        assert(!result@.contains(m));
                    }
                    push_new(result, m);
                }
            }
        }
        let ghost pushes = result@;
        proof {
            assert(pushes =~= pawn_push_list(g, index as int));
        }
        proof {
            assert forall|m: PieceMove| #[trigger] pushes.contains(m) implies pawn_push(g, index as int, m) && m.en_passant_capture is None by {
            }
        }
        let mut c: usize = 0;
        while c < 2
            invariant
                index < 64,
                c <= 2,
                g == self.game_data,
                b == g.board@,
                p.x == index as int % 8,
                p.y == index as int / 8,
                white == spec_is_white(b[index as int]),
                if white { p.y > 0 } else { p.y < 7 },
                will_promote == if white { p.y == 1 } else { p.y == 6 },
                result@.no_duplicates(),
                forall|m: PieceMove| #[trigger] result@.contains(m) <==> (pushes.contains(m) || (c >= 1 && pawn_capture(g, index as int, -1, m))
                    || (c >= 2 && pawn_capture(g, index as int, 1, m))),
                forall|m: PieceMove| #[trigger] pushes.contains(m) ==> pawn_push(g, index as int, m) && m.en_passant_capture is None,
                result@ == pawn_push_list(g, index as int) + (if c >= 1 { pawn_capture_list(g, index as int, -1) } else {
                    Seq::empty()
                }) + (if c >= 2 { pawn_capture_list(g, index as int, 1) } else { Seq::empty() }),
            decreases 2 - c,
        {
            let dx: i8 = if c == 0 { -1 } else { 1 };
            let nx = p.x + dx;
            let ny = if white { p.y - 1 } else { p.y + 1 };
            let ghost prev = result@;
            if nx >= 0 && nx <= 7 {
                let new_index = (nx + ny * 8) as usize;
                if self.game_data.board[new_index] != 0 && is_white(self.game_data.board[new_index]) != is_white(self.game_data.board[index]) {
                    proof {
                        assert forall|k: int| 0 <= k < prev.len() implies !pawn_step(index as int, new_index as int, will_promote, #[trigger] prev[k]) by {
                            assert(prev.contains(prev[k]));
                        }
                    }
                    push_pawn_step(result, index, new_index, will_promote);
                }
            }
            proof {
                if c == 0 {
                    assert(result@ =~= pawn_push_list(g, index as int) + pawn_capture_list(g, index as int, -1) + Seq::<PieceMove>::empty());
                } else {
                    assert(result@ =~= pawn_push_list(g, index as int) + pawn_capture_list(g, index as int, -1) + pawn_capture_list(
                        g,
                        index as int,
                        1,
                    ));
                }
                assert forall|m: PieceMove| #[trigger] result@.contains(m) <==> (pushes.contains(m) || (c + 1 >= 1 && pawn_capture(g, index as int, -1, m))
                    || (c + 1 >= 2 && pawn_capture(g, index as int, 1, m))) by {
                    if pawn_capture(g, index as int, dx as int, m) {
                        assert(nx >= 0 && nx <= 7);
                    }
                }
            }
            c = c + 1;
        }
        let ghost captures = result@;
        if self.game_data.last_move.pawn_moving_twice {
            if index >= 1 && self.game_data.last_move.to == index - 1 {
                let to = if white { index - 9 } else { index + 7 };
                let m = PieceMove { en_passant_capture: Some(index - 1), ..PieceMove::plain(index, to) };
                proof {
                    assert(!result@.contains(m)) by {
                        if result@.contains(m) {
                            assert(!pushes.contains(m));
                        }
                    }
                }
                push_new(result, m);
            } else if self.game_data.last_move.to == index + 1 {
                let to = if white { index - 7 } else { index + 9 };
                let m = PieceMove { en_passant_capture: Some(index + 1), ..PieceMove::plain(index, to) };
                proof {
                    assert(!result@.contains(m)) by {
                        if result@.contains(m) {
                            assert(!pushes.contains(m));
                        }
                    }
                }
                push_new(result, m);
            }
        }
        proof {
            assert forall|m: PieceMove| #[trigger] result@.contains(m) <==> pawn_moves(g, index as int, m) by {
                if pawn_en_passant(g, index as int, m) {
                    assert(self.game_data.last_move.pawn_moving_twice);
                }
            }
        }
    }
}

/// The castling moves of the king on `index` (see `castle_moves`), short first.
pub open spec fn castle_list(g: GameData, index: int) -> Seq<PieceMove> {
    let b = g.board@;
    let white = spec_is_white(b[index]);
    let short_flag = if white { g.white_can_short_castle } else { g.black_can_short_castle };
    let long_flag = if white { g.white_can_long_castle } else { g.black_can_long_castle };
    (if short_flag && b[index + 1] == 0 && b[index + 2] == 0 {
        seq![PieceMove { short_castle: true, ..plain_move(index, index + 2) }]
    } else {
        Seq::empty()
    }) + (if long_flag && b[index - 1] == 0 && b[index - 2] == 0 && b[index - 3] == 0 {
        seq![PieceMove { long_castle: true, ..plain_move(index, index - 2) }]
    } else {
        Seq::empty()
    })
}

/// The pseudo-legal moves of the piece on `index` in the order they are
/// generated: see `pawn_list`, `steps_list` and `slides_list`; a king's
/// castling moves come after its steps.
pub open spec fn game_move_list(g: GameData, index: int) -> Seq<PieceMove> {
    let b = g.board@;
    let kind = piece_kind(b[index]);
    if kind == PAWN {
        pawn_list(g, index)
    } else if kind == KNIGHT {
        steps_list(b, index, false, 8)
    } else if kind == BISHOP {
        slides_list(b, index, bishop_dirs(), 4)
    } else if kind == ROOK {
        slides_list(b, index, rook_dirs(), 4)
    } else if kind == QUEEN {
        slides_list(b, index, queen_dirs(), 8)
    } else if kind == KING {
        steps_list(b, index, true, 8) + castle_list(g, index)
    } else {
        Seq::empty()
    }
}

impl Game {
    /// The pseudo-legal moves of the piece on `index` (see `game_pseudo_move`), each once.
    #[verifier::spinoff_prover]
    pub fn get_moves_for_piece(&mut self, index: usize) -> (r: Vec<PieceMove>)
        requires
            index < 64,
            old(self).game_data.wf(),
        ensures
            *final(self) == *old(self),
            r@.no_duplicates(),
            forall|m: PieceMove| #[trigger] r@.contains(m) <==> game_pseudo_move(old(self).game_data, index as int, m),
            r@ == game_move_list(old(self).game_data, index as int),
    {
        let ghost g = self.game_data;
        let ghost b = g.board@;
        let mut result: Vec<PieceMove> = Vec::new();
        let kind = self.game_data.board[index] & 0b0111;
        if kind == PAWN {
            self.add_pawn_moves(&mut result, index);
        } else if kind == KNIGHT {
            self.push_steps(&mut result, index, false);
        } else if kind == BISHOP || kind == ROOK || kind == QUEEN {
            let dirs: Vec<Point> = if kind == BISHOP {
                vec![Point::new(-1, -1), Point::new(-1, 1), Point::new(1, -1), Point::new(1, 1)]
            } else if kind == ROOK {
                vec![Point::new(-1, 0), Point::new(1, 0), Point::new(0, -1), Point::new(0, 1)]
            } else {
                vec![
                    Point::new(-1, -1),
                    Point::new(0, -1),
                    Point::new(1, -1),
                    Point::new(-1, 0),
                    Point::new(1, 0),
                    Point::new(-1, 1),
                    Point::new(0, 1),
                    Point::new(1, 1),
                ]
            };
            proof {
                if kind == BISHOP {
                    assert(dirs@ =~= bishop_dirs());
                } else if kind == ROOK {
                    assert(dirs@ =~= rook_dirs());
                } else {
                    assert(dirs@ =~= queen_dirs());
                }
            }
            self.push_all_slides(&mut result, index, &dirs);
            proof {
                assert(result@ == game_move_list(g, index as int));
            }
            proof {
                assert forall|m: PieceMove| #[trigger] result@.contains(m) <==> game_pseudo_move(g, index as int, m) by {
                    if kind == QUEEN {
                        if slide_along(b, index as int, dirs@, 8, m) {
                            let k = choose|k: int| 0 <= k < 8 && #[trigger] slide_move(b, index as int, dirs@[k].x as int, dirs@[k].y as int, m);
                        }
                        if bishop_move(b, index as int, m) || rook_move(b, index as int, m) {
                            if slide_move(b, index as int, -1, -1, m) { assert(slide_move(b, index as int, dirs@[0].x as int, dirs@[0].y as int, m)); }
                            if slide_move(b, index as int, 0, -1, m) { assert(slide_move(b, index as int, dirs@[1].x as int, dirs@[1].y as int, m)); }
                            if slide_move(b, index as int, 1, -1, m) { assert(slide_move(b, index as int, dirs@[2].x as int, dirs@[2].y as int, m)); }
                            if slide_move(b, index as int, -1, 0, m) { assert(slide_move(b, index as int, dirs@[3].x as int, dirs@[3].y as int, m)); }
                            if slide_move(b, index as int, 1, 0, m) { assert(slide_move(b, index as int, dirs@[4].x as int, dirs@[4].y as int, m)); }
                            if slide_move(b, index as int, -1, 1, m) { assert(slide_move(b, index as int, dirs@[5].x as int, dirs@[5].y as int, m)); }
                            if slide_move(b, index as int, 0, 1, m) { assert(slide_move(b, index as int, dirs@[6].x as int, dirs@[6].y as int, m)); }
                            if slide_move(b, index as int, 1, 1, m) { assert(slide_move(b, index as int, dirs@[7].x as int, dirs@[7].y as int, m)); }
                        }
                    } else {
                        if slide_along(b, index as int, dirs@, 4, m) {
                            let k = choose|k: int| 0 <= k < 4 && #[trigger] slide_move(b, index as int, dirs@[k].x as int, dirs@[k].y as int, m);
                        }
                        if (kind == BISHOP && bishop_move(b, index as int, m)) || (kind == ROOK && rook_move(b, index as int, m)) {
                            if kind == BISHOP {
                                if slide_move(b, index as int, -1, -1, m) { assert(slide_move(b, index as int, dirs@[0].x as int, dirs@[0].y as int, m)); }
                                if slide_move(b, index as int, -1, 1, m) { assert(slide_move(b, index as int, dirs@[1].x as int, dirs@[1].y as int, m)); }
                                if slide_move(b, index as int, 1, -1, m) { assert(slide_move(b, index as int, dirs@[2].x as int, dirs@[2].y as int, m)); }
                                if slide_move(b, index as int, 1, 1, m) { assert(slide_move(b, index as int, dirs@[3].x as int, dirs@[3].y as int, m)); }
                            } else {
                                if slide_move(b, index as int, -1, 0, m) { assert(slide_move(b, index as int, dirs@[0].x as int, dirs@[0].y as int, m)); }
                                if slide_move(b, index as int, 1, 0, m) { assert(slide_move(b, index as int, dirs@[1].x as int, dirs@[1].y as int, m)); }
                                if slide_move(b, index as int, 0, -1, m) { assert(slide_move(b, index as int, dirs@[2].x as int, dirs@[2].y as int, m)); }
                                if slide_move(b, index as int, 0, 1, m) { assert(slide_move(b, index as int, dirs@[3].x as int, dirs@[3].y as int, m)); }
                            }
                        }
                    }
                }
            }
        } else if kind == KING {
            self.push_steps(&mut result, index, true);
            let ghost steps_done = result@;
            let white = is_white(self.game_data.board[index]);
            let short_flag = if white { self.game_data.white_can_short_castle } else { self.game_data.black_can_short_castle };
            let long_flag = if white { self.game_data.white_can_long_castle } else { self.game_data.black_can_long_castle };
            let ghost steps = result@;
            proof {
                if short_flag || long_flag {
                    assert(piece_kind(b[index as int]) == KING);
                }
            }
            if short_flag && self.game_data.board[index + 1] == 0 && self.game_data.board[index + 2] == 0 {
                let m = PieceMove { short_castle: true, ..PieceMove::plain(index, index + 2) };
                proof {
                    assert(!result@.contains(m));
                }
                push_new(&mut result, m);
            }
            let ghost with_short = result@;
            if long_flag && self.game_data.board[index - 1] == 0 && self.game_data.board[index - 2] == 0
                && self.game_data.board[index - 3] == 0 {
                let m = PieceMove { long_castle: true, ..PieceMove::plain(index, index - 2) };
                proof {
                    assert(!result@.contains(m)) by {
                        if result@.contains(m) {
                            assert(!steps.contains(m));
                        }
                    }
                }
                push_new(&mut result, m);
            }
            proof {
                assert(result@ =~= steps_done + castle_list(g, index as int));
            }
        }
        result
    }
}

/// The home square of a side's king: e1 (60) for white, e8 (4) for black.
pub open spec fn king_home(white: bool) -> int {
    if white { 60 } else { 4 }
}

/// The side of `white` may still castle one way or the other.
pub open spec fn may_castle(g: GameData, white: bool) -> bool {
    if white { g.white_can_short_castle || g.white_can_long_castle } else { g.black_can_short_castle || g.black_can_long_castle }
}

/// What `Game::make_move` needs to keep a playable game: the move fits, a
/// double push ends on rows 1 to 6, promotion types are piece types below the
/// king, and a castling king moves two squares from its home square while
/// its side may castle.
pub open spec fn keeps_wf(g: GameData, m: PieceMove) -> bool {
    let moved = moved_piece(g, m);
    &&& game_move_fits(g, m)
    &&& m.pawn_moving_twice ==> 8 <= m.to <= 55
    &&& m.promotion_type <= 5
    &&& (piece_kind(moved) == KING && (m.short_castle || m.long_castle)) ==> {
        &&& m.from == king_home(spec_is_white(moved))
        &&& may_castle(g, spec_is_white(moved))
        &&& m.short_castle ==> m.to == m.from + 2
        &&& (!m.short_castle && m.long_castle) ==> m.to + 2 == m.from
    }
}

proof fn lemma_promotion_bits(x: u8, t: u8)
    requires
        t <= 5,
    ensures
        piece_kind((x & WHITE) | t) == t,
        spec_is_white((x & WHITE) | t) == spec_is_white(x),
        piece_kind(0u8) == 0,
{
    assert(((x & 8u8) | t) & 7u8 == t && ((((x & 8u8) | t) & 8u8 != 0) == (x & 8u8 != 0)) && 0u8 & 7u8 == 0u8) by (bit_vector)
        requires
            t <= 5,
    ;
}

/// A move that keeps the game playable leaves a playable game.
#[verifier::spinoff_prover]
pub proof fn lemma_after_wf(g: GameData, m: PieceMove, r: GameData)
    requires
        g.wf(),
        keeps_wf(g, m),
        game_after(g, m, r),
    ensures
        r.wf(),
{
    let b = g.board@;
    let b1 = lifted_board(g, m);
    let moved = moved_piece(g, m);
    let after = board_after(g, m);
    lemma_promotion_bits(moved, m.promotion_type);
    assert forall|i: int| 0 <= i < 64 && piece_kind(#[trigger] r.board@[i]) == KING implies {
        &&& (spec_is_white(r.board@[i]) && (r.white_can_short_castle || r.white_can_long_castle)) ==> i == 60
        &&& (!spec_is_white(r.board@[i]) && (r.black_can_short_castle || r.black_can_long_castle)) ==> i == 4
    } by {
        let c = spec_is_white(r.board@[i]);
        let rflags = if c { r.white_can_short_castle || r.white_can_long_castle } else { r.black_can_short_castle || r.black_can_long_castle };
        if rflags {
            assert(may_castle(g, c));
            let to = m.to as int;
            let from = m.from as int;
            if i == to {
                if piece_kind(moved) == PAWN {
                    match m.en_passant_capture {
                        Some(e) => {
                            if e as int != to {
                                assert(after[i] == moved);
                            }
                        },
                        None => {
                            if (to / 8 == 0 || to / 8 == 7) && !g.whites_turn {
                                assert(after[i] == (moved & WHITE) | m.promotion_type);
                            } else {
                                assert(after[i] == moved);
                            }
                        },
                    }
                    assert(piece_kind(after[i]) != KING);
                }
                assert(false);
            } else if i == from {
                assert(after[i] == 0u8);
            } else if piece_kind(moved) == KING && m.short_castle {
                if i == to - 1 {
                    assert(after[i] == b[to + 1]);
                    assert(piece_kind(b[to + 1]) == KING);
                    assert(to + 1 == king_home(c));
                } else if i == to + 1 {
                    assert(after[i] == 0u8);
                } else {
                    assert(after[i] == b[i]);
                }
            } else if piece_kind(moved) == KING && m.long_castle {
                if i == to + 1 {
                    assert(after[i] == b[to - 2]);
                    assert(piece_kind(b[to - 2]) == KING);
                    assert(to - 2 == king_home(c));
                } else if i == to - 2 {
                    assert(after[i] == 0u8);
                } else {
                    assert(after[i] == b[i]);
                }
            } else if piece_kind(moved) == PAWN && m.en_passant_capture is Some && i == m.en_passant_capture->0 {
                assert(after[i] == 0u8);
            } else {
                assert(after[i] == b[i]);
            }
            assert(i == king_home(c));
        }
    }
}

/// The king step a castling move is checked with: one square toward the rook.
pub open spec fn castle_step(m: PieceMove) -> PieceMove {
    PieceMove {
        to: if m.short_castle { (m.from + 1) as usize } else { (m.from - 1) as usize },
        short_castle: false,
        long_castle: false,
        ..m
    }
}

/// Facts about every pseudo-legal move of a playable game.
#[verifier::spinoff_prover]
#[verifier::rlimit(60)]
pub proof fn lemma_pseudo_facts(g: GameData, index: int, m: PieceMove)
    requires
        g.wf(),
        0 <= index < 64,
        game_pseudo_move(g, index, m),
    ensures
        m.from == index,
        m.to < 64,
        keeps_wf(g, m),
        (m.short_castle || m.long_castle) ==> keeps_wf(g, castle_step(m)) && castle_step(m).to < 64,
{
    let b = g.board@;
    let kind = piece_kind(b[index]);
    if kind == BISHOP || kind == ROOK || kind == QUEEN {
        if bishop_move(b, index, m) || rook_move(b, index, m) {
            let dirs = queen_dirs();
            assert(slide_move(b, index, -1, -1, m) || slide_move(b, index, 0, -1, m) || slide_move(b, index, 1, -1, m)
                || slide_move(b, index, -1, 0, m) || slide_move(b, index, 1, 0, m) || slide_move(b, index, -1, 1, m)
                || slide_move(b, index, 0, 1, m) || slide_move(b, index, 1, 1, m));
        }
    }
    assert(moved_piece(g, m) == b[index]);
    if kind == KING && castle_moves(g, index, m) {
        assert(index == king_home(spec_is_white(b[index])));
    }
}

/// Some piece of the side opposing `white` has a pseudo-legal move onto a king of `white`.
pub open spec fn king_attacked_game(g: GameData, white: bool) -> bool {
    exists|i: int, m: PieceMove| 0 <= i < 64 && g.board@[i] != 0 && spec_is_white(g.board@[i]) == !white
        && #[trigger] game_pseudo_move(g, i, m) && piece_kind(g.board@[m.to as int]) == KING
        && spec_is_white(g.board@[m.to as int]) == white
}

/// After `m` the king of the side to move is attacked.
pub open spec fn attacked_after(g: GameData, m: PieceMove) -> bool {
    exists|r: GameData| #[trigger] game_after(g, m, r) && king_attacked_game(r, g.whites_turn)
}

/// The game data after a move is determined by the move.
pub proof fn lemma_game_after_unique(g: GameData, m: PieceMove, r1: GameData, r2: GameData)
    requires
        game_after(g, m, r1),
        game_after(g, m, r2),
    ensures
        r1 == r2,
{
    assert(r1.board =~= r2.board);
}

/// A legal move of the piece on `index`: pseudo-legal, not leaving the king of
/// the side to move attacked, and for castling, made while that king is not
/// attacked and without crossing an attacked square.
pub open spec fn game_legal_move(g: GameData, index: int, m: PieceMove) -> bool {
    &&& game_pseudo_move(g, index, m)
    &&& (m.short_castle || m.long_castle) ==> (!king_attacked_game(g, g.whites_turn) && !attacked_after(g, castle_step(m)))
    &&& !attacked_after(g, m)
}

impl Game {
    /// Whether a piece of the other side can move onto a king of `white` (see `king_attacked_game`).
    pub fn king_in_check(&mut self, white: bool) -> (r: bool)
        requires
            old(self).game_data.wf(),
        ensures
            *final(self) == *old(self),
            r == king_attacked_game(old(self).game_data, white),
    {
        let ghost g = self.game_data;
        let mut i: usize = 0;
        while i < 64
            invariant
                i <= 64,
                *self == *old(self),
                g == self.game_data,
                g.wf(),
                forall|j: int, m: PieceMove| 0 <= j < i && g.board@[j] != 0 && spec_is_white(g.board@[j]) == !white
                    && #[trigger] game_pseudo_move(g, j, m) ==> !(piece_kind(g.board@[m.to as int]) == KING
                    && spec_is_white(g.board@[m.to as int]) == white),
            decreases 64 - i,
        {
            if self.game_data.board[i] != 0 && is_white(self.game_data.board[i]) == !white {
                let moves = self.get_moves_for_piece(i);
                let mut k: usize = 0;
                while k < moves.len()
                    invariant
                        i < 64,
                        k <= moves@.len(),
                        *self == *old(self),
                        g == self.game_data,
                        g.wf(),
                        forall|m: PieceMove| #[trigger] moves@.contains(m) <==> game_pseudo_move(g, i as int, m),
                        g.board@[i as int] != 0 && spec_is_white(g.board@[i as int]) == !white,
                        forall|q: int| 0 <= q < k ==> !(piece_kind(g.board@[(#[trigger] moves@[q]).to as int]) == KING
                            && spec_is_white(g.board@[moves@[q].to as int]) == white),
                    decreases moves@.len() - k,
                {
                    let m = moves[k];
                    proof {
                        assert(moves@.contains(m));
                        lemma_pseudo_facts(g, i as int, m);
                    }
                    if self.game_data.board[m.to] & 0b0111 == KING && is_white(self.game_data.board[m.to]) == white {
                        proof {
                            assert(game_pseudo_move(g, i as int, m));
                            assert(g.board@[i as int] != 0 && spec_is_white(g.board@[i as int]) == !white);
                            assert(piece_kind(g.board@[m.to as int]) == KING && spec_is_white(g.board@[m.to as int]) == white);
                            assert(king_attacked_game(g, white));
                        }
                        return true;
                    }
                    k = k + 1;
                }
                proof {
                    assert forall|m: PieceMove| #[trigger] game_pseudo_move(g, i as int, m) implies !(piece_kind(g.board@[m.to as int]) == KING
                        && spec_is_white(g.board@[m.to as int]) == white) by {
                        assert(moves@.contains(m));
                        let q = choose|q: int| 0 <= q < moves@.len() && moves@[q] == m;
                    }
                }
            }
            i = i + 1;
        }
        false
    }
}

/// Removing the entry at `i` from a sequence without duplicates drops exactly that value.
pub proof fn lemma_remove_no_duplicates<T>(s: Seq<T>, i: int)
    requires
        s.no_duplicates(),
        0 <= i < s.len(),
    ensures
        s.remove(i).no_duplicates(),
        forall|m: T| #[trigger] s.remove(i).contains(m) <==> (s.contains(m) && m != s[i]),
        s.remove(i).subrange(0, i) == s.subrange(0, i),
{
    let t = s.remove(i);
    assert forall|a: int, b: int| 0 <= a < t.len() && 0 <= b < t.len() && a != b implies t[a] != t[b] by {
        let a2 = if a < i { a } else { a + 1 };
        let b2 = if b < i { b } else { b + 1 };
        assert(t[a] == s[a2] && t[b] == s[b2]);
    }
    assert forall|m: T| #[trigger] t.contains(m) <==> (s.contains(m) && m != s[i]) by {
        if t.contains(m) {
            let a = choose|a: int| 0 <= a < t.len() && t[a] == m;
            let a2 = if a < i { a } else { a + 1 };
            assert(s[a2] == m);
        }
        if s.contains(m) && m != s[i] {
            let a = choose|a: int| 0 <= a < s.len() && s[a] == m;
            let a2 = if a < i { a } else { a - 1 };
            assert(t[a2] == m);
        }
    }
    assert(t.subrange(0, i) =~= s.subrange(0, i));
}

/// The moves of the piece on `index` that are legal (see `game_legal_move`).
pub open spec fn legal_pred(g: GameData, index: int) -> spec_fn(PieceMove) -> bool {
    |m: PieceMove| game_legal_move(g, index, m)
}

/// Filtering a sequence that starts with `x` keeps `x` first when it passes.
proof fn lemma_filter_front(x: PieceMove, rest: Seq<PieceMove>, pred: spec_fn(PieceMove) -> bool)
    ensures
        (seq![x] + rest).filter(pred) == (if pred(x) { seq![x] } else { Seq::empty() }) + rest.filter(pred),
{
    reveal_with_fuel(Seq::filter, 2);
    Seq::filter_distributes_over_add(seq![x], rest, pred);
    assert(seq![x].drop_last() =~= Seq::<PieceMove>::empty());
    if pred(x) {
        assert(seq![x].filter(pred) =~= seq![x]);
    } else {
        assert(seq![x].filter(pred) =~= Seq::<PieceMove>::empty());
    }
}

/// Taking out the entry between `a` and `c` leaves `a` followed by `c`.
proof fn lemma_remove_middle(a: Seq<PieceMove>, x: PieceMove, c: Seq<PieceMove>)
    ensures
        (a + seq![x] + c).remove(a.len() as int) == a + c,
{
    assert((a + seq![x] + c).remove(a.len() as int) =~= a + c);
}

/// Checking `m` makes a move on the board: it is not a castling move, or the
/// king of the side to move is not attacked.
pub open spec fn tries_move(g: GameData, m: PieceMove) -> bool {
    !(m.short_castle || m.long_castle) || !king_attacked_game(g, g.whites_turn)
}

impl Game {
    /// The legal moves of the piece on `index` (see `game_legal_move`), each
    /// once. Each candidate is tried on the board and taken back, so the game
    /// data is unchanged, and the undo slot holds it when any was tried.
    #[verifier::spinoff_prover]
    #[verifier::rlimit(100)]
    pub fn get_legal_moves_for_piece(&mut self, index: usize) -> (r: Vec<PieceMove>)
        requires
            index < 64,
            old(self).game_data.wf(),
        ensures
            final(self).game_data == old(self).game_data,
            final(self).last_game_data == if exists|m: PieceMove| #[trigger] game_pseudo_move(old(self).game_data, index as int, m)
                && tries_move(old(self).game_data, m) {
                old(self).game_data
            } else {
                old(self).last_game_data
            },
            r@.no_duplicates(),
            forall|m: PieceMove| #[trigger] r@.contains(m) <==> game_legal_move(old(self).game_data, index as int, m),
            r@ == game_move_list(old(self).game_data, index as int).filter(legal_pred(old(self).game_data, index as int)),
    {
        let ghost g = self.game_data;
        let mut result = self.get_moves_for_piece(index);
        let ghost pseudo = result@;
        let ghost mut tried = false;
        let mut i = result.len();
        proof {
            assert(pseudo.subrange(0, pseudo.len() as int) =~= pseudo);
            assert(pseudo.subrange(pseudo.len() as int, pseudo.len() as int) =~= Seq::<PieceMove>::empty());
            assert(result@.subrange(0, i as int) =~= pseudo.subrange(0, i as int));
            assert(Seq::<PieceMove>::empty().filter(legal_pred(g, index as int)) =~= Seq::<PieceMove>::empty());
            assert(result@ =~= pseudo.subrange(0, i as int) + pseudo.subrange(i as int, pseudo.len() as int).filter(legal_pred(g, index as int)));
        }
        while i > 0
            invariant
                index < 64,
                i <= result@.len(),
                i <= pseudo.len(),
                self.game_data == g,
                g.wf(),
                g == old(self).game_data,
                tried ==> self.last_game_data == g,
                !tried ==> self.last_game_data == old(self).last_game_data,
                tried == exists|q: int| i <= q < pseudo.len() && #[trigger] tries_move(g, pseudo[q]),
                result@.subrange(0, i as int) == pseudo.subrange(0, i as int),
                result@.no_duplicates(),
                pseudo.no_duplicates(),
                forall|m: PieceMove| #[trigger] pseudo.contains(m) <==> game_pseudo_move(g, index as int, m),
                forall|m: PieceMove| #[trigger] result@.contains(m) <==> (pseudo.subrange(0, i as int).contains(m) || (pseudo.subrange(
                    i as int, pseudo.len() as int).contains(m) && game_legal_move(g, index as int, m))),
                pseudo == game_move_list(g, index as int),
                result@ == pseudo.subrange(0, i as int) + pseudo.subrange(i as int, pseudo.len() as int).filter(legal_pred(g, index as int)),
            decreases i,
        {
            i = i - 1;
            let m = result[i];
            let ghost prev = result@;
            let ghost head = pseudo.subrange(0, i as int);
            let ghost tail = pseudo.subrange(i + 1, pseudo.len() as int).filter(legal_pred(g, index as int));
            proof {
                assert(prev =~= head + seq![m] + tail);
                lemma_filter_front(m, pseudo.subrange(i + 1, pseudo.len() as int), legal_pred(g, index as int));
                lemma_remove_middle(head, m, tail);
                assert(prev.subrange(0, i + 1)[i as int] == m);
                assert(pseudo[i as int] == m);
                assert(pseudo.contains(m));
                lemma_pseudo_facts(g, index as int, m);
                assert(pseudo.subrange(0, i + 1) =~= pseudo.subrange(0, i as int).push(m));
                assert(pseudo.subrange(i as int, pseudo.len() as int) =~= seq![m] + pseudo.subrange(i + 1, pseudo.len() as int));
                assert(!pseudo.subrange(0, i as int).contains(m)) by {
                    if pseudo.subrange(0, i as int).contains(m) {
                        let head = pseudo.subrange(0, i as int);
                        let a = choose|a: int| 0 <= a < head.len() && head[a] == m;
                        assert(pseudo[a] == m);
                    }
                }
                assert(!pseudo.subrange(i + 1, pseudo.len() as int).contains(m)) by {
                    if pseudo.subrange(i + 1, pseudo.len() as int).contains(m) {
                        let tail = pseudo.subrange(i + 1, pseudo.len() as int);
                        let a = choose|a: int| 0 <= a < tail.len() && tail[a] == m;
                        assert(pseudo[i + 1 + a] == m);
                    }
                }
                assert forall|mm: PieceMove| #[trigger] pseudo.subrange(0, i + 1).contains(mm) <==> (pseudo.subrange(0, i as int).contains(mm) || mm == m) by {
                    crate::movegen::lemma_push_contains(pseudo.subrange(0, i as int), m, mm);
                }
                assert forall|mm: PieceMove| #[trigger] pseudo.subrange(i as int, pseudo.len() as int).contains(mm) <==> (pseudo.subrange(i + 1, pseudo.len() as int).contains(mm) || mm == m) by {
                    crate::movegen::lemma_append_contains(seq![m], pseudo.subrange(i + 1, pseudo.len() as int), mm);
                    if seq![m].contains(mm) {
                        let a = choose|a: int| 0 <= a < 1 && seq![m][a] == mm;
                    }
                    if mm == m {
                        assert(seq![m][0] == mm);
                    }
                }
                assert(tries_move(g, m) ==> exists|q: int| i <= q < pseudo.len() && #[trigger] tries_move(g, pseudo[q]));
                assert((exists|q: int| i <= q < pseudo.len() && #[trigger] tries_move(g, pseudo[q])) <==> (tried || tries_move(g, m))) by {
                    if exists|q: int| i <= q < pseudo.len() && #[trigger] tries_move(g, pseudo[q]) {
                        let q = choose|q: int| i <= q < pseudo.len() && #[trigger] tries_move(g, pseudo[q]);
                        if q != i {
                            assert(i + 1 <= q);
                        }
                    }
                }
            }
            let mut already_removed = false;
            if m.short_castle || m.long_castle {
                let in_check = self.king_in_check(self.game_data.whites_turn);
                if in_check {
                    result.remove(i);
                    proof {
                        lemma_remove_no_duplicates(prev, i as int);
                        assert(!tries_move(g, m));
                        assert(!game_legal_move(g, index as int, m));
                    }
                    continue;
                }
                let step = PieceMove {
                    to: (m.from as i8 + if m.short_castle { 1i8 } else { -1i8 }) as usize,
                    short_castle: false,
                    long_castle: false,
                    ..m
                };
                proof {
                    assert(step == castle_step(m));
                }
                self.make_move(step);
                let ghost r1 = self.game_data;
                proof {
                    lemma_after_wf(g, step, r1);
                }
                let attacked = self.king_in_check(!self.game_data.whites_turn);
                proof {
                    if !attacked {
                        assert(!attacked_after(g, step)) by {
                            if attacked_after(g, step) {
                                let r2 = choose|r2: GameData| #[trigger] game_after(g, step, r2) && king_attacked_game(r2, g.whites_turn);
                                lemma_game_after_unique(g, step, r1, r2);
                            }
                        }
                    }
                }
                if attacked {
                    result.remove(i);
                    already_removed = true;
                    proof {
                        lemma_remove_no_duplicates(prev, i as int);
                        assert(!game_legal_move(g, index as int, m));
                    }
                }
                self.undo_last_move();
                proof {
                    tried = true;
                }
            }
            if already_removed {
                continue;
            }
            self.make_move(m);
            let ghost r3 = self.game_data;
            proof {
                lemma_after_wf(g, m, r3);
            }
            let attacked = self.king_in_check(!self.game_data.whites_turn);
            proof {
                if !attacked {
                    assert(!attacked_after(g, m)) by {
                        if attacked_after(g, m) {
                            let r2 = choose|r2: GameData| #[trigger] game_after(g, m, r2) && king_attacked_game(r2, g.whites_turn);
                            lemma_game_after_unique(g, m, r3, r2);
                        }
                    }
                }
            }
            if attacked {
                result.remove(i);
                proof {
                    lemma_remove_no_duplicates(prev, i as int);
                    assert(!game_legal_move(g, index as int, m));
                }
            } else {
                proof {
                    assert(game_legal_move(g, index as int, m));
                }
            }
            self.undo_last_move();
            proof {
                tried = true;
            }
        }
        proof {
            assert(pseudo.subrange(0, 0) =~= Seq::<PieceMove>::empty());
            assert(pseudo.subrange(0, pseudo.len() as int) =~= pseudo);
            assert forall|m: PieceMove| #[trigger] result@.contains(m) <==> game_legal_move(g, index as int, m) by {
                if game_legal_move(g, index as int, m) {
                    assert(pseudo.contains(m));
                }
            }
            if exists|m: PieceMove| #[trigger] game_pseudo_move(g, index as int, m) && tries_move(g, m) {
                let m = choose|m: PieceMove| #[trigger] game_pseudo_move(g, index as int, m) && tries_move(g, m);
                assert(pseudo.contains(m));
                let q = choose|q: int| 0 <= q < pseudo.len() && pseudo[q] == m;
                assert(tries_move(g, pseudo[q]));
            }
            if tried {
                let q = choose|q: int| 0 <= q < pseudo.len() && #[trigger] tries_move(g, pseudo[q]);
                assert(pseudo.contains(pseudo[q]));
                assert(game_pseudo_move(g, index as int, pseudo[q]));
            }
        }
        result
    }
}

/// The worth of a piece on square `i` in the middlegame: its base worth
/// plus its piece-square table entry (read mirrored for black); a king has
/// no base worth, and an empty square is worth nothing.
pub open spec fn worth_for_piece(piece: u8, i: int) -> int {
    let s = if spec_is_white(piece) { i } else { mirrored_square(i) };
    let k = piece_kind(piece);
    if k == PAWN {
        100 + MIDDLEGAME_PAWN_TABLE@[s]
    } else if k == KNIGHT {
        320 + KNIGHT_TABLE@[s]
    } else if k == BISHOP {
        330 + BISHOP_TABLE@[s]
    } else if k == ROOK {
        500 + ROOK_TABLE@[s]
    } else if k == QUEEN {
        900 + QUEEN_TABLE@[s]
    } else if k == KING {
        MIDDLEGAME_KING_TABLE@[s] as int
    } else {
        0
    }
}

/// The table entries lie between -100 and 100.
proof fn lemma_table_bounds(s: int)
    requires
        0 <= s < 64,
    ensures
        -100 <= MIDDLEGAME_PAWN_TABLE@[s] <= 100,
        -100 <= KNIGHT_TABLE@[s] <= 100,
        -100 <= BISHOP_TABLE@[s] <= 100,
        -100 <= ROOK_TABLE@[s] <= 100,
        -100 <= QUEEN_TABLE@[s] <= 100,
        -100 <= MIDDLEGAME_KING_TABLE@[s] <= 100,
{
    assert(forall|k: int| 0 <= k < 64 ==> -100 <= #[trigger] MIDDLEGAME_PAWN_TABLE@[k] <= 100);
    assert(forall|k: int| 0 <= k < 64 ==> -100 <= #[trigger] KNIGHT_TABLE@[k] <= 100);
    assert(forall|k: int| 0 <= k < 64 ==> -100 <= #[trigger] BISHOP_TABLE@[k] <= 100);
    assert(forall|k: int| 0 <= k < 64 ==> -100 <= #[trigger] ROOK_TABLE@[k] <= 100);
    assert(forall|k: int| 0 <= k < 64 ==> -100 <= #[trigger] QUEEN_TABLE@[k] <= 100);
    assert(forall|k: int| 0 <= k < 64 ==> -100 <= #[trigger] MIDDLEGAME_KING_TABLE@[k] <= 100);
}

/// The worth of `piece` on square `i` (see `worth_for_piece`).
pub fn get_worth_for_piece(piece: u8, i: usize) -> (r: i32)
    requires
        i < 64,
    ensures
        r == worth_for_piece(piece, i as int),
        -100 <= r <= 1000,
{
    let s = if is_white(piece) { i } else { flip_index(i) };
    proof {
        lemma_table_bounds(s as int);
    }
    let k = piece & 0b0111;
    if k == PAWN {
        100 + MIDDLEGAME_PAWN_TABLE[s]
    } else if k == KNIGHT {
        320 + KNIGHT_TABLE[s]
    } else if k == BISHOP {
        330 + BISHOP_TABLE[s]
    } else if k == ROOK {
        500 + ROOK_TABLE[s]
    } else if k == QUEEN {
        900 + QUEEN_TABLE[s]
    } else if k == KING {
        MIDDLEGAME_KING_TABLE[s]
    } else {
        0
    }
}

/// A legal move of some piece of colour `white` (see `game_legal_move`).
pub open spec fn color_legal_move(g: GameData, white: bool, m: PieceMove) -> bool {
    let i = m.from as int;
    &&& i < 64
    &&& g.board@[i] != 0
    &&& spec_is_white(g.board@[i]) == white
    &&& game_legal_move(g, i, m)
}

/// Some piece of colour `white` has a candidate move that is tried on the board.
pub open spec fn color_tries_move(g: GameData, white: bool) -> bool {
    exists|i: int, m: PieceMove| 0 <= i < 64 && g.board@[i] != 0 && spec_is_white(g.board@[i]) == white
        && #[trigger] game_pseudo_move(g, i, m) && tries_move(g, m)
}

/// The legal moves of the pieces of colour `white` on the first `n` squares,
/// square by square, each piece's in the order they are generated.
pub open spec fn color_legal_list(g: GameData, white: bool, n: int) -> Seq<PieceMove>
    decreases n,
{
    if n <= 0 {
        Seq::empty()
    } else {
        let b = g.board@;
        color_legal_list(g, white, n - 1) + if b[n - 1] != 0 && spec_is_white(b[n - 1]) == white {
            game_move_list(g, n - 1).filter(legal_pred(g, n - 1))
        } else {
            Seq::empty()
        }
    }
}

impl Game {
    /// The legal moves of all pieces of colour `white`, square by square,
    /// each once (see `color_legal_move`). The game data is unchanged; the
    /// undo slot holds it when any candidate was tried.
    #[verifier::spinoff_prover]
    pub fn get_legal_moves_for_color(&mut self, white: bool) -> (r: Vec<PieceMove>)
        requires
            old(self).game_data.wf(),
        ensures
            final(self).game_data == old(self).game_data,
            final(self).last_game_data == if color_tries_move(old(self).game_data, white) {
                old(self).game_data
            } else {
                old(self).last_game_data
            },
            r@.no_duplicates(),
            forall|m: PieceMove| #[trigger] r@.contains(m) <==> color_legal_move(old(self).game_data, white, m),
            r@ == color_legal_list(old(self).game_data, white, 64),
    {
        let ghost g = self.game_data;
        let mut result: Vec<PieceMove> = Vec::new();
        let mut i: usize = 0;
        while i < 64
            invariant
                i <= 64,
                self.game_data == g,
                g == old(self).game_data,
                g.wf(),
                self.last_game_data == if exists|j: int, m: PieceMove| 0 <= j < i && g.board@[j] != 0 && spec_is_white(g.board@[j]) == white
                    && #[trigger] game_pseudo_move(g, j, m) && tries_move(g, m) {
                    g
                } else {
                    old(self).last_game_data
                },
                result@.no_duplicates(),
                forall|m: PieceMove| #[trigger] result@.contains(m) <==> (color_legal_move(g, white, m) && m.from < i),
                result@ == color_legal_list(g, white, i as int),
            decreases 64 - i,
        {
            if self.game_data.board[i] != 0 && is_white(self.game_data.board[i]) == white {
                let ghost before_last = self.last_game_data;
                let mut moves = self.get_legal_moves_for_piece(i);
                let ghost prev = result@;
                proof {
                    assert forall|m: PieceMove| #[trigger] moves@.contains(m) implies m.from == i by {
                        lemma_pseudo_facts(g, i as int, m);
                    }
                    assert forall|m: PieceMove| prev.contains(m) implies !moves@.contains(m) by {
                        if prev.contains(m) && moves@.contains(m) {
                            assert(m.from < i);
                        }
                    }
                    crate::movegen::lemma_append_no_duplicates(prev, moves@);
                    assert forall|m: PieceMove| #[trigger] (prev + moves@).contains(m) <==> (color_legal_move(g, white, m) && m.from < i + 1) by {
                        crate::movegen::lemma_append_contains(prev, moves@, m);
                        if color_legal_move(g, white, m) && m.from == i {
                            assert(moves@.contains(m));
                        }
                        if moves@.contains(m) {
                            assert(m.from == i);
                        }
                    }
                }
                result.append(&mut moves);
                proof {
                    let e = exists|j: int, m: PieceMove| 0 <= j < i + 1 && g.board@[j] != 0 && spec_is_white(g.board@[j]) == white
                        && #[trigger] game_pseudo_move(g, j, m) && tries_move(g, m);
                    let e_old = exists|j: int, m: PieceMove| 0 <= j < i && g.board@[j] != 0 && spec_is_white(g.board@[j]) == white
                        && #[trigger] game_pseudo_move(g, j, m) && tries_move(g, m);
                    let e_here = exists|m: PieceMove| #[trigger] game_pseudo_move(g, i as int, m) && tries_move(g, m);
                    if e {
                        let (j, m) = choose|j: int, m: PieceMove| 0 <= j < i + 1 && g.board@[j] != 0 && spec_is_white(g.board@[j]) == white
                            && #[trigger] game_pseudo_move(g, j, m) && tries_move(g, m);
                        if j < i {
                            assert(e_old);
                        } else {
                            assert(e_here);
                        }
                    }
                    if e_here {
                        let m = choose|m: PieceMove| #[trigger] game_pseudo_move(g, i as int, m) && tries_move(g, m);
                        assert(e);
                    }
                    if e_old {
                        let (j, m) = choose|j: int, m: PieceMove| 0 <= j < i && g.board@[j] != 0 && spec_is_white(g.board@[j]) == white
                            && #[trigger] game_pseudo_move(g, j, m) && tries_move(g, m);
                        assert(e);
                    }
                }
            } else {
                proof {
                    assert(result@ =~= color_legal_list(g, white, i + 1));
                    assert forall|m: PieceMove| #[trigger] result@.contains(m) <==> (color_legal_move(g, white, m) && m.from < i + 1) by {
                        if color_legal_move(g, white, m) && m.from == i {
                            assert(false);
                        }
                    }
                    let e = exists|j: int, m: PieceMove| 0 <= j < i + 1 && g.board@[j] != 0 && spec_is_white(g.board@[j]) == white
                        && #[trigger] game_pseudo_move(g, j, m) && tries_move(g, m);
                    if e {
                        let (j, m) = choose|j: int, m: PieceMove| 0 <= j < i + 1 && g.board@[j] != 0 && spec_is_white(g.board@[j]) == white
                            && #[trigger] game_pseudo_move(g, j, m) && tries_move(g, m);
                        assert(j != i);
                    }
                }
            }
            i = i + 1;
        }
        result
    }
}

/// The material balance of the first `n` squares: white pieces count for,
/// black pieces against.
pub open spec fn material_balance(b: Seq<u8>, n: int) -> int
    decreases n,
{
    if n <= 0 {
        0
    } else if b[n - 1] == 0 {
        material_balance(b, n - 1)
    } else if spec_is_white(b[n - 1]) {
        material_balance(b, n - 1) + worth_for_piece(b[n - 1], n - 1)
    } else {
        material_balance(b, n - 1) - worth_for_piece(b[n - 1], n - 1)
    }
}

impl Game {
    /// The evaluation from white's side: the material balance plus the number
    /// of white legal moves minus the number of black ones, added as 32-bit
    /// integers that wrap around.
    pub fn eval(&mut self) -> (r: i32)
        requires
            old(self).game_data.wf(),
        ensures
            final(self).game_data == old(self).game_data,
            final(self).last_game_data == if color_tries_move(old(self).game_data, true) || color_tries_move(
                old(self).game_data,
                false,
            ) {
                old(self).game_data
            } else {
                old(self).last_game_data
            },
            r == (material_balance(old(self).game_data.board@, 64) as i32).wrapping_add(
                color_legal_list(old(self).game_data, true, 64).len() as i32,
            ).wrapping_sub(color_legal_list(old(self).game_data, false, 64).len() as i32),
    {
        let ghost g = self.game_data;
        let mut eval: i32 = 0;
        let mut i: usize = 0;
        while i < 64
            invariant
                i <= 64,
                self.game_data == g,
                eval == material_balance(g.board@, i as int),
                -1000 * i <= eval <= 1000 * i,
            decreases 64 - i,
        {
            if self.game_data.board[i] != 0 {
                let piece_value = get_worth_for_piece(self.game_data.board[i], i);
                if is_white(self.game_data.board[i]) {
                    eval = eval + piece_value;
                } else {
                    eval = eval - piece_value;
                }
            }
            i = i + 1;
        }
        let white_moves = self.get_legal_moves_for_color(true);
        let black_moves = self.get_legal_moves_for_color(false);
        proof {
            assert(self.game_data == g);
        }
        let total = eval.wrapping_add(white_moves.len() as i32).wrapping_sub(black_moves.len() as i32);
        total
    }
}

} // verus!
