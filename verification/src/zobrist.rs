//! Zobrist hashing: a position's key is the XOR of random numbers for each
//! piece on its square, the castling rights, the en-passant file and the side
//! to move, updated incrementally as moves are made.
use vstd::prelude::*;
use crate::value_holder::{ValueHolder, holder_model, model_push, model_synced};
use crate::move_data::{MoveData, DOUBLE_PAWN_PUSH_FLAG, EN_PASSANT_FLAG, SHORT_CASTLE_FLAG, LONG_CASTLE_FLAG};
use crate::pieces::{
    NO_PIECE, ROOK, WHITE_KING, BLACK_KING, build_piece, is_piece_white, promotable_contains, spec_build_piece,
    spec_is_piece_white, is_promotable,
};
use crate::board::{
    Board, move_fits, last_move_of, rook_from, rook_to, own_rook, capture_square, placed_piece, is_castle,
};
use rand::{Rng, SeedableRng};

verus! {

/// The seed of the random numbers the tables are filled with.
pub const SEED: u64 = 19274892;

/// How many random numbers fill the tables: 12 * 64 piece keys, 16 castling
/// keys, 9 en-passant keys and one side-to-move key.
pub const TABLE_NUMBERS: usize = 794;

/// The first `count` numbers that `rand::Rng::gen::<u64>` draws from a
/// `rand_pcg::Pcg64` made by `rand::SeedableRng::seed_from_u64(seed)`.
pub uninterp spec fn pcg64_numbers(seed: u64, count: usize) -> Seq<u64>;

/// Draws `count` numbers from a `rand_pcg::Pcg64` seeded by
/// `SeedableRng::seed_from_u64(seed)`, one `Rng::gen::<u64>` call each. The
/// generator is deterministic, so the numbers are named by seed and count
/// (`pcg64_numbers`); that there are `count` of them is all that is stated of them.
#[verifier::external_body]
fn pcg64_random_numbers(seed: u64, count: usize) -> (r: Vec<u64>)
    ensures
        r@ == pcg64_numbers(seed, count),
        r@.len() == count,
{
    let mut rng = rand_pcg::Pcg64::seed_from_u64(seed);
    let mut numbers = Vec::with_capacity(count);
    for _ in 0..count {
        numbers.push(rng.gen::<u64>());
    }
    numbers
}

pub struct Zobrist {
    pub key: ValueHolder<u64>,
    pub pieces: [[u64; 64]; 12],
    pub castling_rights: [u64; 16],
    pub en_passant: [u64; 9],
    pub en_passant_file: usize,
    pub side_to_move: u64,
}

/// A move that `Zobrist::make_move` can hash: every table index it touches is in range.
pub open spec fn hashable_move(data: MoveData) -> bool {
    &&& data.piece < 12
    &&& data.from < 64
    &&& data.to < 64
    &&& (data.capture != NO_PIECE ==> data.capture < 12)
    &&& (data.flag == SHORT_CASTLE_FLAG ==> 1 <= data.to && data.to + 1 < 64)
    &&& (data.flag == LONG_CASTLE_FLAG ==> 2 <= data.to && data.to + 1 < 64)
    &&& (data.capture != NO_PIECE && data.flag == EN_PASSANT_FLAG) ==> if spec_is_piece_white(data.piece as int) {
        data.to + 8 < 64
    } else {
        data.to >= 8
    }
}

impl Zobrist {
    pub open spec fn piece_key(&self, piece: int, square: int) -> u64 {
        self.pieces@[piece as int]@[square]
    }

    pub open spec fn castling_key(&self, rights: int) -> u64 {
        self.castling_rights@[rights]
    }

    pub open spec fn en_passant_key(&self, file: int) -> u64 {
        self.en_passant@[file]
    }

    pub open spec fn side_key(&self) -> u64 {
        self.side_to_move
    }

    pub open spec fn en_passant_file_of(&self) -> int {
        self.en_passant_file as int
    }

    /// The random tables are the same in both hashers.
    pub open spec fn same_tables(&self, other: &Zobrist) -> bool {
        &&& forall|p: int, s: int| 0 <= p < 12 && 0 <= s < 64 ==> #[trigger] self.piece_key(p, s) == other.piece_key(p, s)
        &&& forall|r: int| 0 <= r < 16 ==> #[trigger] self.castling_key(r) == other.castling_key(r)
        &&& forall|f: int| 0 <= f < 9 ==> #[trigger] self.en_passant_key(f) == other.en_passant_key(f)
        &&& self.side_key() == other.side_key()
    }

    pub open spec fn wf(&self) -> bool {
        self.key.wf() && self.en_passant_file < 9
    }

    /// The change `make_move` XORs into the key.
    pub open spec fn move_delta(&self, data: MoveData, last_move: MoveData, castling_rights: u8, last_castling_rights: u8) -> u64 {
        let to = data.to as int;
        let white = spec_is_piece_white(data.piece as int);
        let rook = spec_build_piece(white, ROOK as int);
        let moved = self.piece_key(data.piece as int, data.from as int) ^ if !is_promotable(data.flag as int) {
            self.piece_key(data.piece as int, to)
        } else {
            self.piece_key(spec_build_piece(white, data.flag as int), to)
        };
        let special = if data.flag == SHORT_CASTLE_FLAG {
            self.piece_key(rook, to + 1) ^ self.piece_key(rook, to - 1)
        } else if data.flag == LONG_CASTLE_FLAG {
            self.piece_key(rook, to - 2) ^ self.piece_key(rook, to + 1)
        } else if data.capture != NO_PIECE {
            if data.flag == EN_PASSANT_FLAG {
                self.piece_key(data.capture as int, if white { to + 8 } else { to - 8 })
            } else {
                self.piece_key(data.capture as int, to)
            }
        } else {
            0u64
        };
        let rights = self.castling_key(last_castling_rights as int) ^ self.castling_key(castling_rights as int);
        let last_ep = if last_move.flag == DOUBLE_PAWN_PUSH_FLAG {
            self.en_passant_key(last_move.to as int % 8 + 1)
        } else {
            0u64
        };
        let this_ep = if data.flag == DOUBLE_PAWN_PUSH_FLAG {
            self.en_passant_key(to % 8 + 1)
        } else {
            0u64
        };
        (((((moved ^ special) ^ rights) ^ last_ep) ^ this_ep) ^ self.side_key())
    }

    /// A hasher whose key is 0 and whose tables are all zero.
    pub fn new_empty() -> (r: Self)
        ensures
            r.wf(),
            r.key.current == 0,
            r.key.index == 0,
            r.key.history@ == seq![0u64],
    {
        Zobrist {
            key: ValueHolder::new(0),
            pieces: [[0u64; 64]; 12],
            castling_rights: [0u64; 16],
            en_passant: [0u64; 9],
            en_passant_file: 0,
            side_to_move: 0,
        }
    }

    /// Whether the current key occurred an even number of plies ago within
    /// the last `fifty_move_counter` plies.
    pub fn is_repetition(&self, fifty_move_counter: usize) -> (r: bool)
        requires
            self.wf(),
            fifty_move_counter <= self.key.index,
        ensures
            r == exists|k: int|
                0 <= k && self.key.index - fifty_move_counter + 2 * k < self.key.index
                    && #[trigger] self.key.history@[self.key.index - fifty_move_counter + 2 * k]
                    == self.key.current,
    {
        let start = self.key.index - fifty_move_counter;
        let end = self.key.index;
        let mut i = start;
        let ghost mut k: int = 0;
        while i < end
            invariant
                self.key.wf(),
                end == self.key.index,
                start == self.key.index - fifty_move_counter,
                start <= i,
                i == start + 2 * k,
                k >= 0,
                forall|q: int| 0 <= q < k ==> #[trigger] self.key.history@[start + 2 * q] != self.key.current,
            decreases end - i,
        {
            if self.key.history[i] == self.key.current {
                return true;
            }
            if end - i < 2 {
                proof {
                    assert forall|q: int| 0 <= q && start + 2 * q < end implies #[trigger] self.key.history@[start + 2 * q] != self.key.current by {
                        if q > k {
                            assert(start + 2 * q >= start + 2 * k + 2);
                        }
                    }
                }
                return false;
            }
            i = i + 2;
            proof {
                k = k + 1;
            }
        }
        proof {
            assert forall|q: int| 0 <= q && start + 2 * q < end implies #[trigger] self.key.history@[start + 2 * q] != self.key.current by {
                assert(q < k);
            }
        }
        false
    }

    /// Updates the key for `data` played after `last_move`, the castling
    /// rights going from `last_castling_rights` to `castling_rights`, and
    /// records the new key one level deeper.
    pub fn make_move(&mut self, data: MoveData, last_move: MoveData, castling_rights: u8, last_castling_rights: u8)
        requires
            old(self).wf(),
            old(self).key.index < usize::MAX,
            hashable_move(data),
            castling_rights < 16,
            last_castling_rights < 16,
        ensures
            final(self).wf(),
            final(self).same_tables(old(self)),
            holder_model(&final(self).key) == model_push((
                old(self).key.current ^ old(self).move_delta(data, last_move, castling_rights, last_castling_rights),
                old(self).key.index as int,
                old(self).key.history@,
            )),
            final(self).en_passant_file_of() == if data.flag == DOUBLE_PAWN_PUSH_FLAG {
                data.to as int % 8 + 1
            } else {
                old(self).en_passant_file_of()
            },
    {
        let ghost delta = self.move_delta(data, last_move, castling_rights, last_castling_rights);
        let ghost start = self.key.current;
        let to = data.to as usize;
        let piece = data.piece as usize;
        let white = is_piece_white(piece);
        let mut k = self.key.current;
        k = k ^ self.pieces[piece][data.from as usize];
        if !promotable_contains(data.flag) {
            k = k ^ self.pieces[piece][to];
        } else {
            k = k ^ self.pieces[build_piece(white, data.flag as usize)][to];
        }
        let ghost after_moved = k;
        let mut special: u64 = 0;
        if data.flag == SHORT_CASTLE_FLAG {
            let rook = build_piece(white, ROOK);
            special = self.pieces[rook][to + 1] ^ self.pieces[rook][to - 1];
        } else if data.flag == LONG_CASTLE_FLAG {
            let rook = build_piece(white, ROOK);
            special = self.pieces[rook][to - 2] ^ self.pieces[rook][to + 1];
        } else if data.capture != NO_PIECE as u8 {
            if data.flag == EN_PASSANT_FLAG {
                let pawn_to_en_passant = if white { to + 8 } else { to - 8 };
                special = self.pieces[data.capture as usize][pawn_to_en_passant];
            } else {
                special = self.pieces[data.capture as usize][to];
            }
        }
        k = k ^ special;
        let rights = self.castling_rights[last_castling_rights as usize] ^ self.castling_rights[castling_rights as usize];
        k = k ^ rights;
        let mut last_ep: u64 = 0;
        if last_move.flag == DOUBLE_PAWN_PUSH_FLAG {
            let file = (last_move.to as usize % 8) + 1;
            last_ep = self.en_passant[file];
        }
        k = k ^ last_ep;
        let mut this_ep: u64 = 0;
        if data.flag == DOUBLE_PAWN_PUSH_FLAG {
            let file = (to % 8) + 1;
            this_ep = self.en_passant[file];
            self.en_passant_file = file;
        }
        k = k ^ this_ep;
        k = k ^ self.side_to_move;
        proof {
            let a = self.pieces@[piece as int]@[data.from as int];
            let b = if !is_promotable(data.flag as int) { self.pieces@[piece as int]@[to as int] } else {
                self.pieces@[spec_build_piece(white, data.flag as int)]@[to as int]
            };
            assert(after_moved == (start ^ a) ^ b);
            let s = special;
            let r = rights;
            let l = last_ep;
            let t = this_ep;
            let sd = self.side_to_move;
            assert(delta == (((((a ^ b) ^ s) ^ r) ^ l) ^ t) ^ sd);
            assert(((((((start ^ a) ^ b) ^ s) ^ r) ^ l) ^ t) ^ sd == start ^ ((((((a ^ b) ^ s) ^ r) ^ l) ^ t) ^ sd))
                by (bit_vector);
        }
        self.key.current = k;
        self.key.push();
    }

    /// Updates the key for passing the move (flipping the side to move and
    /// the en-passant file) and records it one level deeper.
    pub fn make_null_move(&mut self)
        requires
            old(self).wf(),
            old(self).key.index < usize::MAX,
        ensures
            final(self).wf(),
            final(self).same_tables(old(self)),
            final(self).en_passant_file_of() == old(self).en_passant_file_of(),
            holder_model(&final(self).key) == model_push((
                (old(self).key.current ^ old(self).side_key()) ^ old(self).en_passant_key(old(self).en_passant_file_of()),
                old(self).key.index as int,
                old(self).key.history@,
            )),
    {
        self.key.current = self.key.current ^ self.side_to_move;
        self.key.current = self.key.current ^ self.en_passant[self.en_passant_file];
        self.key.push();
    }
}

impl Zobrist {
    /// The tables hold the numbers of `nums` in drawing order: piece keys
    /// piece by piece and square by square, then castling, en-passant and
    /// side-to-move keys.
    pub open spec fn tables_from(&self, nums: Seq<u64>) -> bool {
        &&& forall|p: int, s: int| 0 <= p < 12 && 0 <= s < 64 ==> #[trigger] self.piece_key(p, s) == nums[64 * p + s]
        &&& forall|r: int| 0 <= r < 16 ==> #[trigger] self.castling_key(r) == nums[768 + r]
        &&& forall|f: int| 0 <= f < 9 ==> #[trigger] self.en_passant_key(f) == nums[784 + f]
        &&& self.side_key() == nums[793]
    }

    /// The XOR of the piece keys of the pieces on the first `n` squares of `v`.
    pub open spec fn placement_key(&self, v: Seq<int>, n: int) -> u64
        decreases n,
    {
        if n <= 0 {
            0
        } else if v[n - 1] != 12 {
            self.placement_key(v, n - 1) ^ self.piece_key(v[n - 1], n - 1)
        } else {
            self.placement_key(v, n - 1)
        }
    }

    /// The placement key depends on the piece keys alone.
    pub proof fn lemma_placement_key_tables(&self, other: &Zobrist, v: Seq<int>, n: int)
        requires
            self.pieces == other.pieces,
        ensures
            self.placement_key(v, n) == other.placement_key(v, n),
        decreases n,
    {
        if n > 0 {
            self.lemma_placement_key_tables(other, v, n - 1);
        }
    }

    /// The key of a position: its pieces, castling rights and en-passant
    /// file, and the side key when black is to move.
    pub open spec fn position_key(&self, v: Seq<int>, rights: int, en_passant_file: int, white_to_move: bool) -> u64 {
        let k = (self.placement_key(v, 64) ^ self.castling_key(rights)) ^ self.en_passant_key(en_passant_file);
        if white_to_move { k } else { k ^ self.side_key() }
    }

    /// Fills the tables with the seeded random numbers and computes the key
    /// of `board`'s position, with no recorded history.
    pub fn generate(board: &Board) -> (r: Self)
        requires
            board.bitboards_wf(),
            board.board_state.current.castling_rights < 16,
            board.en_passant_file < 9,
        ensures
            r.wf(),
            r.tables_from(pcg64_numbers(SEED, TABLE_NUMBERS)),
            r.en_passant_file == 0,
            r.key.index == 0,
            r.key.history@ == seq![r.key.current],
            r.key.current == r.position_key(board.view(), board.board_state.current.castling_rights as int,
                board.en_passant_file as int, board.white_to_move),
    {
        let numbers = pcg64_random_numbers(SEED, TABLE_NUMBERS);
        let ghost nums = numbers@;
        let mut pieces = [[0u64; 64]; 12];
        let mut piece: usize = 0;
        while piece < 12
            invariant
                piece <= 12,
                numbers@ == nums,
                nums.len() == 794,
                forall|p: int, s: int| 0 <= p < piece && 0 <= s < 64 ==> #[trigger] pieces@[p]@[s] == nums[64 * p + s],
            decreases 12 - piece,
        {
            let mut row = [0u64; 64];
            let mut square: usize = 0;
            while square < 64
                invariant
                    piece < 12,
                    square <= 64,
                    numbers@ == nums,
                    nums.len() == 794,
                    forall|s: int| 0 <= s < square ==> #[trigger] row@[s] == nums[64 * piece + s],
                decreases 64 - square,
            {
                row[square] = numbers[64 * piece + square];
                square = square + 1;
            }
            pieces[piece] = row;
            piece = piece + 1;
        }
        let mut castling_rights = [0u64; 16];
        let mut i: usize = 0;
        while i < 16
            invariant
                i <= 16,
                numbers@ == nums,
                nums.len() == 794,
                forall|r: int| 0 <= r < i ==> #[trigger] castling_rights@[r] == nums[768 + r],
            decreases 16 - i,
        {
            castling_rights[i] = numbers[768 + i];
            i = i + 1;
        }
        let mut en_passant = [0u64; 9];
        let mut i: usize = 0;
        while i < 9
            invariant
                i <= 9,
                numbers@ == nums,
                nums.len() == 794,
                forall|f: int| 0 <= f < i ==> #[trigger] en_passant@[f] == nums[784 + f],
            decreases 9 - i,
        {
            en_passant[i] = numbers[784 + i];
            i = i + 1;
        }
        let side_to_move = numbers[793];
        let mut zobrist = Zobrist {
            key: ValueHolder::new(0),
            pieces,
            castling_rights,
            en_passant,
            en_passant_file: 0,
            side_to_move,
        };
        let mut initial_key: u64 = 0;
        let mut square: u8 = 0;
        while square < 64
            invariant
                square <= 64,
                board.bitboards_wf(),
                initial_key == zobrist.placement_key(board.view(), square as int),
                zobrist.pieces == pieces,
            decreases 64 - square,
        {
            let piece = board.get_piece(square);
            if piece != NO_PIECE {
                initial_key = initial_key ^ zobrist.pieces[piece][square as usize];
            }
            square = square + 1;
        }
        initial_key = initial_key ^ zobrist.castling_rights[board.board_state.current.castling_rights as usize];
        initial_key = initial_key ^ zobrist.en_passant[board.en_passant_file];
        if !board.white_to_move {
            initial_key = initial_key ^ zobrist.side_to_move;
        }
        let ghost before = zobrist;
        zobrist.key = ValueHolder::new(initial_key);
        proof {
            before.lemma_placement_key_tables(&zobrist, board.view(), 64);
        }
        zobrist
    }
}

/// XOR with 0 changes nothing, XOR twice with the same number undoes it, and
/// the order of XORs does not matter.
pub proof fn lemma_xor_laws(a: u64, b: u64, c: u64)
    ensures
        a ^ 0u64 == a,
        (a ^ b) ^ b == a,
        a ^ b == b ^ a,
        (a ^ b) ^ c == a ^ (b ^ c),
{
    assert(a ^ 0u64 == a && (a ^ b) ^ b == a && a ^ b == b ^ a && (a ^ b) ^ c == a ^ (b ^ c)) by (bit_vector);
}

impl Zobrist {
    /// The key of piece `q` on square `s`, or 0 for an empty square.
    pub open spec fn square_key(&self, q: int, s: int) -> u64 {
        if q != 12 { self.piece_key(q, s) } else { 0 }
    }

    /// Putting `p` on square `s` changes the placement key by the keys of
    /// what stood there and of `p`.
    pub proof fn lemma_placement_update(&self, v: Seq<int>, s: int, p: int, n: int)
        requires
            0 <= s < v.len(),
            0 <= n <= v.len(),
        ensures
            self.placement_key(v.update(s, p), n) == self.placement_key(v, n) ^ if s < n {
                self.square_key(v[s], s) ^ self.square_key(p, s)
            } else {
                0u64
            },
        decreases n,
    {
        if n > 0 {
            self.lemma_placement_update(v, s, p, n - 1);
            let w = v.update(s, p);
            let a = self.placement_key(v, n - 1);
            let aw = self.placement_key(w, n - 1);
            let cv = self.square_key(v[n - 1], n - 1);
            let cw = self.square_key(w[n - 1], n - 1);
            let x = self.square_key(v[s], s);
            let y = self.square_key(p, s);
            let d = if s < n - 1 { x ^ y } else { 0u64 };
            lemma_xor_laws(a, cv, d);
            lemma_xor_laws(aw, cw, 0);
            lemma_xor_laws(a, x, y);
            assert(self.placement_key(v, n) == a ^ cv);
            assert(self.placement_key(w, n) == aw ^ cw);
            if n - 1 == s {
                assert(w[n - 1] == p);
                assert(aw == a);
                assert((a ^ x) ^ (x ^ y) == a ^ y) by (bit_vector);
            } else {
                assert(w[n - 1] == v[n - 1]);
                assert(aw == a ^ d);
                assert((a ^ d) ^ cv == (a ^ cv) ^ d) by (bit_vector);
            }
        } else {
            lemma_xor_laws(0u64, 0u64, 0u64);
        }
    }

    /// Hashers with the same tables give every placement the same key.
    pub proof fn lemma_placement_same_tables(&self, other: &Zobrist, v: Seq<int>, n: int)
        requires
            self.same_tables(other),
            n <= v.len(),
            v.len() <= 64,
            forall|t: int| 0 <= t < v.len() ==> 0 <= #[trigger] v[t] <= 12,
        ensures
            self.placement_key(v, n) == other.placement_key(v, n),
        decreases n,
    {
        if n > 0 {
            self.lemma_placement_same_tables(other, v, n - 1);
        }
    }
}

/// The en-passant file a position has after `last`: the file (1 to 8) the
/// last move pushed a pawn two squares on, else 0 (none).
pub open spec fn en_passant_file_after(last: MoveData) -> int {
    if last.flag == DOUBLE_PAWN_PUSH_FLAG { last.to as int % 8 + 1 } else { 0 }
}

impl Zobrist {
    /// The key of a position as the incremental updates keep it: the key of
    /// its pieces, castling rights and side to move (with the no-file
    /// en-passant entry), and the entry of its en-passant file when it has one.
    pub open spec fn tracked_key(&self, v: Seq<int>, rights: int, en_passant_file: int, white_to_move: bool) -> u64 {
        let k = self.position_key(v, rights, 0, white_to_move);
        if en_passant_file != 0 { k ^ self.en_passant_key(en_passant_file) } else { k }
    }
}

/// Making a move changes the key exactly as recomputing the key of the new
/// position does, its en-passant file included (a double pawn push adds the
/// file's entry, the next move takes it away); so the key depends only on
/// the position reached: its pieces, castling rights, side to move and
/// en-passant file. For castling, the king lands next to where its rook
/// started, on the square the engine's castling moves use.
pub proof fn lemma_incremental_key(b0: &Board, m: MoveData, b1: &Board)
    requires
        b0.wf(),
        b1.wf(),
        move_fits(b0.view(), m),
        b1.is_after_move(b0, m),
        m.flag == SHORT_CASTLE_FLAG ==> m.to + 1 == rook_from(m),
        m.flag == LONG_CASTLE_FLAG ==> m.to == rook_from(m) + 2,
        b0.zobrist.key.current == b0.zobrist.tracked_key(b0.view(), b0.board_state.current.castling_rights as int,
            en_passant_file_after(last_move_of(b0.moves@)), b0.white_to_move),
    ensures
        b1.zobrist.key.current == b1.zobrist.tracked_key(b1.view(), b1.board_state.current.castling_rights as int,
            en_passant_file_after(last_move_of(b1.moves@)), b1.white_to_move),
{
    let z = b0.zobrist;
    let v0 = b0.view();
    let v1 = b1.view();
    let white = spec_is_piece_white(m.piece as int);
    let rook = spec_build_piece(white, ROOK as int);
    let from = m.from as int;
    let to = m.to as int;
    let cs = capture_square(m);
    let castle = is_castle(m) && (m.piece == WHITE_KING || m.piece == BLACK_KING);
    b0.lemma_view_is_bits();
    b1.lemma_view_is_bits();
    // The placement after the move, one square at a time.
    let va = if m.capture != NO_PIECE { v0.update(cs, 12) } else { v0 };
    let vb = va.update(from, 12);
    let vc = vb.update(to, placed_piece(m));
    let vd = vc.update(rook_from(m), 12);
    let ve = vd.update(rook_to(m), own_rook(m));
    let p0 = z.placement_key(v0, 64);
    let x = if m.capture != NO_PIECE { z.piece_key(m.capture as int, cs) } else { 0u64 };
    let f = z.piece_key(m.piece as int, from);
    let t = z.piece_key(placed_piece(m), to);
    let kr = if castle { z.piece_key(rook, rook_from(m)) ^ z.piece_key(rook, rook_to(m)) } else { 0u64 };
    if m.capture != NO_PIECE {
        z.lemma_placement_update(v0, cs, 12, 64);
        lemma_xor_laws(z.piece_key(m.capture as int, cs), 0, 0);
    } else {
        lemma_xor_laws(p0, 0, 0);
    }
    let pa = z.placement_key(va, 64);
    assert(pa == p0 ^ x);
    z.lemma_placement_update(va, from, 12, 64);
    lemma_xor_laws(f, 0, 0);
    let pb = z.placement_key(vb, 64);
    assert(pb == pa ^ f);
    z.lemma_placement_update(vb, to, placed_piece(m), 64);
    lemma_xor_laws(0, t, 0);
    lemma_xor_laws(t, 0, 0);
    assert(vb[to] == 12);
    assert(placed_piece(m) != 12);
    assert(z.square_key(vb[to], to) ^ z.square_key(placed_piece(m), to) == t);
    let pc = z.placement_key(vc, 64);
    assert(pc == pb ^ t);
    let p1 = z.placement_key(v1, 64);
    if castle {
        z.lemma_placement_update(vc, rook_from(m), 12, 64);
        z.lemma_placement_update(vd, rook_to(m), own_rook(m), 64);
        lemma_xor_laws(z.piece_key(rook, rook_from(m)), 0, 0);
        lemma_xor_laws(0, z.piece_key(rook, rook_to(m)), 0);
        lemma_xor_laws(z.piece_key(rook, rook_to(m)), 0, 0);
        assert(vc[rook_from(m)] == rook);
        assert(vd[rook_to(m)] == 12);
        assert(own_rook(m) == rook);
        assert(z.square_key(vd[rook_to(m)], rook_to(m)) ^ z.square_key(own_rook(m), rook_to(m)) == z.piece_key(rook, rook_to(m)));
        let pd = z.placement_key(vd, 64);
        assert(pd == pc ^ z.piece_key(rook, rook_from(m)));
        assert(v1 == ve);
        assert(p1 == pd ^ z.piece_key(rook, rook_to(m)));
        assert((pd ^ z.piece_key(rook, rook_to(m))) == pc ^ kr) by {
            lemma_xor_laws(pc, z.piece_key(rook, rook_from(m)), z.piece_key(rook, rook_to(m)));
        }
    } else {
        assert(v1 == vc);
        lemma_xor_laws(pc, 0, 0);
    }
    assert(p1 == pc ^ kr);
    // The change the hasher made.
    let special = z.move_delta(m, last_move_of(b0.moves@), b1.board_state.current.castling_rights,
        b0.board_state.current.castling_rights);
    let c0 = z.castling_key(b0.board_state.current.castling_rights as int);
    let c1 = z.castling_key(b1.board_state.current.castling_rights as int);
    let e = z.en_passant_key(0);
    let side = z.side_key();
    let sp = if castle { kr } else { x };
    let last = last_move_of(b0.moves@);
    let l = if last.flag == DOUBLE_PAWN_PUSH_FLAG { z.en_passant_key(last.to as int % 8 + 1) } else { 0u64 };
    let d = if m.flag == DOUBLE_PAWN_PUSH_FLAG { z.en_passant_key(m.to as int % 8 + 1) } else { 0u64 };
    assert(special == (((((f ^ t) ^ sp) ^ (c0 ^ c1)) ^ l) ^ d) ^ side);
    assert(last_move_of(b1.moves@) == m);
    lemma_xor_laws(((p0 ^ c0) ^ e), 0, 0);
    lemma_xor_laws((((p0 ^ c0) ^ e) ^ side), 0, 0);
    // The hasher after the move has the same tables.
    b1.zobrist.lemma_placement_same_tables(&z, v1, 64);
    let key0 = b0.zobrist.key.current;
    let key1 = b1.zobrist.key.current;
    assert(key1 == key0 ^ special);
    if b0.white_to_move {
        assert(key0 == ((p0 ^ c0) ^ e) ^ l);
        assert((((((p0 ^ c0) ^ e) ^ l) ^ ((((((f ^ t) ^ sp) ^ (c0 ^ c1)) ^ l) ^ d) ^ side)) == (((((((p0 ^ sp) ^ f) ^ t) ^ c1) ^ e) ^ side) ^ d))
            && ((p0 ^ x) ^ f) ^ t == ((p0 ^ x) ^ f) ^ t) by (bit_vector);
    } else {
        assert(key0 == (((p0 ^ c0) ^ e) ^ side) ^ l);
        assert(((((((p0 ^ c0) ^ e) ^ side) ^ l) ^ ((((((f ^ t) ^ sp) ^ (c0 ^ c1)) ^ l) ^ d) ^ side)) == ((((((p0 ^ sp) ^ f) ^ t) ^ c1) ^ e) ^ d)))
            by (bit_vector);
    }
    if castle {
        assert(x == 0);
        assert(p1 == (((p0 ^ 0u64) ^ f) ^ t) ^ kr);
        assert((((p0 ^ 0u64) ^ f) ^ t) ^ kr == ((p0 ^ kr) ^ f) ^ t) by (bit_vector);
    } else {
        assert(kr == 0);
        assert(p1 == (((p0 ^ x) ^ f) ^ t) ^ 0u64);
        assert((((p0 ^ x) ^ f) ^ t) ^ 0u64 == ((p0 ^ x) ^ f) ^ t) by (bit_vector);
    }
    let k1 = b1.zobrist.position_key(v1, b1.board_state.current.castling_rights as int, 0, b1.white_to_move);
    lemma_xor_laws(k1, 0, 0);
    assert(p1 == ((p0 ^ sp) ^ f) ^ t);
    assert(k1 == if b1.white_to_move { ((p1 ^ c1) ^ e) } else { ((p1 ^ c1) ^ e) ^ side });
    assert(key1 == k1 ^ d);
}


/// The key is that of the position reached (see `tracked_key`), with the
/// hasher's tables.
pub open spec fn key_tracked(b: &Board) -> bool {
    b.zobrist.key.current == b.zobrist.tracked_key(b.view(), b.board_state.current.castling_rights as int,
        en_passant_file_after(last_move_of(b.moves@)), b.white_to_move)
}

/// A line of play: each board is the one before it with the move between
/// them made (a move that fits, with the engine's castling squares).
pub open spec fn line_of_play(bs: Seq<Board>, ms: Seq<MoveData>) -> bool {
    &&& bs.len() == ms.len() + 1
    &&& forall|i: int| 0 <= i < bs.len() ==> (#[trigger] bs[i]).wf()
    &&& forall|i: int| 0 <= i < ms.len() ==> {
        &&& move_fits(bs[i].view(), #[trigger] ms[i])
        &&& bs[i + 1].is_after_move(&bs[i], ms[i])
        &&& ms[i].flag == SHORT_CASTLE_FLAG ==> ms[i].to + 1 == rook_from(ms[i])
        &&& ms[i].flag == LONG_CASTLE_FLAG ==> ms[i].to == rook_from(ms[i]) + 2
    }
}

/// Along a line of play that starts with the key of its position, the key
/// stays that of the position reached, and the tables stay the same.
pub proof fn lemma_key_along_play(bs: Seq<Board>, ms: Seq<MoveData>)
    requires
        line_of_play(bs, ms),
        key_tracked(&bs[0]),
    ensures
        key_tracked(&bs.last()),
        bs.last().zobrist.same_tables(&bs[0].zobrist),
    decreases ms.len(),
{
    if ms.len() > 0 {
        let n = ms.len() - 1;
        let bs0 = bs.drop_last();
        let ms0 = ms.drop_last();
        assert(line_of_play(bs0, ms0)) by {
            assert forall|i: int| 0 <= i < ms0.len() implies {
                &&& move_fits(bs0[i].view(), #[trigger] ms0[i])
                &&& bs0[i + 1].is_after_move(&bs0[i], ms0[i])
                &&& ms0[i].flag == SHORT_CASTLE_FLAG ==> ms0[i].to + 1 == rook_from(ms0[i])
                &&& ms0[i].flag == LONG_CASTLE_FLAG ==> ms0[i].to == rook_from(ms0[i]) + 2
            } by {
                assert(ms0[i] == ms[i]);
                assert(bs0[i] == bs[i] && bs0[i + 1] == bs[i + 1]);
            }
            assert forall|i: int| 0 <= i < bs0.len() implies (#[trigger] bs0[i]).wf() by {
                assert(bs0[i] == bs[i]);
            }
        }
        assert(bs0[0] == bs[0]);
        lemma_key_along_play(bs0, ms0);
        assert(bs0.last() == bs[n]);
        assert(ms[n] == ms[n]);
        assert(bs[n + 1].is_after_move(&bs[n], ms[n]));
        lemma_incremental_key(&bs[n], ms[n], &bs[n + 1]);
        assert(bs.last() == bs[n + 1]);
    }
}

/// Two lines of play from one board that reach the same position (pieces,
/// castling rights, side to move and en-passant file) end with the same
/// key: the key depends on the position reached, not on the moves.
pub proof fn lemma_key_depends_on_position(bs1: Seq<Board>, ms1: Seq<MoveData>, bs2: Seq<Board>, ms2: Seq<MoveData>)
    requires
        line_of_play(bs1, ms1),
        line_of_play(bs2, ms2),
        bs1[0] == bs2[0],
        key_tracked(&bs1[0]),
        bs1.last().view() == bs2.last().view(),
        bs1.last().board_state.current.castling_rights == bs2.last().board_state.current.castling_rights,
        bs1.last().white_to_move == bs2.last().white_to_move,
        en_passant_file_after(last_move_of(bs1.last().moves@)) == en_passant_file_after(last_move_of(bs2.last().moves@)),
    ensures
        bs1.last().zobrist.key.current == bs2.last().zobrist.key.current,
{
    lemma_key_along_play(bs1, ms1);
    lemma_key_along_play(bs2, ms2);
    let a = bs1.last();
    let b = bs2.last();
    assert(a.wf() && b.wf());
    a.lemma_view_is_bits();
    assert(a.zobrist.same_tables(&b.zobrist));
    a.zobrist.lemma_placement_same_tables(&b.zobrist, a.view(), 64);
    let f = en_passant_file_after(last_move_of(a.moves@));
    assert(0 <= f < 9);
    assert(a.zobrist.en_passant_key(f) == b.zobrist.en_passant_key(f));
    assert(a.zobrist.en_passant_key(0) == b.zobrist.en_passant_key(0));
    assert(a.zobrist.castling_key(a.board_state.current.castling_rights as int) == b.zobrist.castling_key(
        b.board_state.current.castling_rights as int));
}

} // verus!
