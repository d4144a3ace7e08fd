//! The search: a negamax alpha-beta search with a quiescence search at its
//! leaves, over a board that it leaves in the position it found it in. The
//! evaluation is handed in as a function of the board, and the search stops
//! when the time limit of the turn has passed.
use vstd::prelude::*;
use crate::board::{Board, apply_move_view, capture_square, is_castle, last_move_of, move_fits, occupancy_for, placed_piece,
    king_attacked, updated_fifty, material_of};
use crate::consistency::{lemma_consistent_moves_fit, lemma_consistent_movable, lemma_move_keeps_consistency,
    lemma_same_position_consistent};
use crate::move_data::{MoveData, null_move, spec_null_move, moves_equal, same_move, DOUBLE_PAWN_PUSH_FLAG, EN_PASSANT_FLAG};
use crate::move_sorter::{MoveSorter, history_bounded, move_score, MAX_SORT_MOVE_PLY, history_at, sorted_as, scored_moves};
use crate::movegen::color_move;
use crate::pieces::{promotable_contains, NO_PIECE};
use crate::piece_square_tables::{PAWN_WORTH, QUEEN_WORTH};
use crate::transposition_table::{TranspositionTable, TranspositionData, NodeType, answers_probe, keeps_stored, with_age};
use crate::utils::{CHECKMATE_EVAL, abs_i32, evaluation_is_mate};
use crate::bot::MAX_SEARCH_EXTENSIONS;
use crate::pieces::PAWN;
use crate::maxwell::{now, elapsed_micros};

verus! {

/// The number of pieces on the squares `i..64` of a placement.
pub open spec fn pieces_from(v: Seq<int>, i: int) -> nat
    decreases 64 - i,
{
    if i < 0 || i >= 64 {
        0
    } else {
        (if v[i] != 12 { 1nat } else { 0nat }) + pieces_from(v, i + 1)
    }
}

proof fn lemma_pieces_bound(v: Seq<int>, i: int)
    requires
        0 <= i <= 64,
    ensures
        pieces_from(v, i) <= 64 - i,
    decreases 64 - i,
{
    if i < 64 {
        lemma_pieces_bound(v, i + 1);
    }
}

/// Putting `x` on square `j` changes the piece count by what leaves and what arrives.
proof fn lemma_pieces_update(v: Seq<int>, j: int, x: int, i: int)
    requires
        v.len() == 64,
        0 <= i <= j < 64,
    ensures
        pieces_from(v.update(j, x), i) + (if v[j] != 12 { 1int } else { 0int }) == pieces_from(v, i) + (if x != 12 {
            1int
        } else {
            0int
        }),
    decreases 64 - i,
{
    if i < j {
        lemma_pieces_update(v, j, x, i + 1);
    } else {
        lemma_pieces_unchanged(v, v.update(j, x), i + 1);
    }
}

proof fn lemma_pieces_unchanged(v: Seq<int>, w: Seq<int>, i: int)
    requires
        v.len() == 64,
        w.len() == 64,
        forall|k: int| i <= k < 64 ==> v[k] == w[k],
    ensures
        pieces_from(v, i) == pieces_from(w, i),
    decreases 64 - i,
{
    if 0 <= i < 64 {
        lemma_pieces_unchanged(v, w, i + 1);
    }
}

/// A capture takes one piece off the board; an en-passant move that takes
/// nothing keeps the count.
proof fn lemma_pieces_after_move(v: Seq<int>, m: MoveData)
    requires
        move_fits(v, m),
        !is_castle(m),
    ensures
        pieces_from(apply_move_view(v, m), 0) + (if m.capture != NO_PIECE { 1int } else { 0int }) == pieces_from(v, 0),
{
    let v1 = if m.capture != NO_PIECE { v.update(capture_square(m), 12) } else { v };
    if m.capture != NO_PIECE {
        lemma_pieces_update(v, capture_square(m), 12, 0);
    }
    let v2 = v1.update(m.from as int, 12);
    lemma_pieces_update(v1, m.from as int, 12, 0);
    lemma_pieces_update(v2, m.to as int, placed_piece(m), 0);
    assert(apply_move_view(v, m) == v2.update(m.to as int, placed_piece(m)));
}

/// What the quiescence search shrinks at each step: twice the piece count,
/// and one more while an en-passant capture may follow.
pub open spec fn quiet_measure(b: &Board) -> nat {
    2 * pieces_from(b.view(), 0) + if last_move_of(b.moves@).flag == DOUBLE_PAWN_PUSH_FLAG { 1nat } else { 0nat }
}

/// A move of the capturing-moves list takes a piece, or is an en-passant
/// step right after a double pawn push; it is neither a castling move nor a
/// double push.
proof fn lemma_capture_move_kind(b: &Board, m: MoveData)
    requires
        b.consistent(),
        color_move(b.view(), b.occupied_spec(), last_move_of(b.moves@), b.board_state.current.castling_rights,
            b.white_to_move, true, m),
    ensures
        move_fits(b.view(), m),
        !is_castle(m),
        m.flag != DOUBLE_PAWN_PUSH_FLAG,
        m.capture != NO_PIECE || last_move_of(b.moves@).flag == DOUBLE_PAWN_PUSH_FLAG,
        updated_fifty(b.board_state.current.fifty_move_counter, m) == 0 || m.capture != NO_PIECE,
{
    lemma_consistent_moves_fit(b, true, m);
}

/// Every move of a sorted list is one of the moves that were sorted.
proof fn lemma_sorted_member(r: Seq<(i32, MoveData)>, mapped: Seq<(i32, MoveData)>, moves: Seq<MoveData>, i: int)
    requires
        r.to_multiset() == mapped.to_multiset(),
        mapped.len() == moves.len(),
        forall|j: int| 0 <= j < mapped.len() ==> (#[trigger] mapped[j]).1 == moves[j],
        0 <= i < r.len(),
    ensures
        moves.contains(r[i].1),
{
    broadcast use vstd::seq_lib::group_to_multiset_ensures;
    assert(r.contains(r[i]));
    assert(r.to_multiset().count(r[i]) > 0);
    assert(mapped.to_multiset().count(r[i]) > 0);
    assert(mapped.contains(r[i]));
    let j = choose|j: int| 0 <= j < mapped.len() && mapped[j] == r[i];
    assert(moves[j] == r[i].1);
}

/// The negation of a score, as two's-complement arithmetic gives it
/// (`i32::MIN` stays itself).
pub open spec fn spec_negate(x: i32) -> i32 {
    if x == i32::MIN { x } else { (-x) as i32 }
}

pub fn negate(x: i32) -> (r: i32)
    ensures
        r == spec_negate(x),
{
    if x == i32::MIN { x } else { -x }
}

/// Two's-complement addition of scores.
pub fn add_scores(a: i32, b: i32) -> (r: i32)
    ensures
        r == (a + b) as i32,
{
    (a as i64 + b as i64) as i32
}

/// The window that mate-distance pruning leaves at `ply` is not empty.
pub open spec fn mate_window_open(alpha: i32, beta: i32, ply: u8) -> bool {
    let mate_value = CHECKMATE_EVAL - ply;
    max_int(alpha as int, -mate_value) < min_int(beta as int, mate_value - 1)
}

pub open spec fn max_int(a: int, b: int) -> int {
    if a >= b { a } else { b }
}

pub open spec fn min_int(a: int, b: int) -> int {
    if a <= b { a } else { b }
}

/// The table holds an entry for `key` that answers a probe at `depth` with
/// window `(alpha, beta)`.
pub open spec fn tt_answers(t: Map<u64, TranspositionData>, key: u64, depth: u8, alpha: i32, beta: i32) -> bool {
    t.contains_key(key) && answers_probe(t[key], depth, alpha, beta)
}

/// The side to move is in check.
pub open spec fn in_check(b: &Board) -> bool {
    king_attacked(b.view(), b.occupied_spec(), b.white_to_move)
}

/// The pseudo-legal moves of the side to move, in the order they are generated.
pub open spec fn position_move_list(b: &Board) -> Seq<MoveData> {
    crate::movegen::color_move_list(b.view(), b.occupied_spec(), last_move_of(b.moves@), b.board_state.current.castling_rights,
        b.white_to_move, false)
}

/// `m` is a legal move of the side to move: a pseudo-legal move that leaves
/// its own king unattacked.
pub open spec fn legal_move(b: &Board, m: MoveData) -> bool {
    &&& color_move(b.view(), b.occupied_spec(), last_move_of(b.moves@), b.board_state.current.castling_rights, b.white_to_move,
        false, m)
    &&& !king_attacked(apply_move_view(b.view(), m), occupancy_for(apply_move_view(b.view(), m)), b.white_to_move)
}

/// The root bookkeeping (best move and evaluation of the iteration, and
/// whether a root move was searched) is as before, or a root move was
/// searched and the iteration's best move is legal in `b`.
pub open spec fn root_kept_or_legal(after: &Search, before: &Search, b: &Board) -> bool {
    ||| {
        &&& after.best_move_this_iteration == before.best_move_this_iteration
        &&& after.evaluation_this_iteration == before.evaluation_this_iteration
        &&& after.searched_one_move == before.searched_one_move
    }
    ||| after.searched_one_move && legal_move(b, after.best_move_this_iteration)
}

/// A score lies within 100 plies of a mate (`i32::MIN` is taken as no mate).
pub open spec fn is_mate_score(x: i32) -> bool {
    x != i32::MIN && abs_i32(x) > CHECKMATE_EVAL - 100
}

/// Passing, searching below the pass (which leaves the position as it was)
/// and taking the pass back restores the position.
proof fn lemma_null_return_restores(b0: &Board, b1: &Board, b1p: &Board, b2: &Board)
    requires
        b0.wf(),
        b1p.wf(),
        b1.is_after_null_move(b0),
        b1p.same_position(b1),
        b2.is_after_null_undo(b1p),
    ensures
        b2.same_position(b0),
{
    assert(b2.moves@ =~= b0.moves@);
    assert(b1.board_state.history@[b0.board_state.index as int] == b0.board_state.history@[b0.board_state.index as int]);
    assert(b1.zobrist.key.history@[b0.zobrist.key.index as int] == b0.zobrist.key.history@[b0.zobrist.key.index as int]);
    assert(b1p.board_state.history@[b0.board_state.index as int] == b1.board_state.history@[b0.board_state.index as int]);
    assert(b1p.zobrist.key.history@[b0.zobrist.key.index as int] == b1.zobrist.key.history@[b0.zobrist.key.index as int]);
}

/// The capturing moves of the side to move, in the order they are generated.
pub open spec fn capture_moves(b: &Board) -> Seq<MoveData> {
    crate::movegen::color_move_list(b.view(), b.occupied_spec(), last_move_of(b.moves@), b.board_state.current.castling_rights,
        b.white_to_move, true)
}

pub open spec fn max_i32(a: i32, b: i32) -> i32 {
    if a >= b { a } else { b }
}

/// A board reached from `b` by `m` stays so when `b` is swapped for a board
/// in the same position.
proof fn lemma_after_move_transfer(before: &Board, b0: &Board, m: MoveData, b2: &Board)
    requires
        before.wf(),
        b0.wf(),
        move_fits(b0.view(), m),
        before.same_position(b0),
        b2.is_after_move(before, m),
    ensures
        b2.is_after_move(b0, m),
{
    let z1 = before.zobrist;
    let z0 = b0.zobrist;
    let last = last_move_of(before.moves@);
    let cr = crate::board::updated_castling_rights(before.board_state.current.castling_rights, m);
    crate::board::lemma_rights_bound(before.board_state.current.castling_rights, m);
    assert(z1.move_delta(m, last, cr, before.board_state.current.castling_rights) == z0.move_delta(m, last, cr,
        b0.board_state.current.castling_rights));
}

/// The margin of delta pruning: a queen, and a second queen less a pawn for a promotion.
pub open spec fn delta_margin(m: MoveData) -> int {
    QUEEN_WORTH + if crate::pieces::is_promotable(m.flag as int) { QUEEN_WORTH - PAWN_WORTH } else { 0 }
}

/// `r` is a result of the quiescence search of `b` with window
/// `(alpha, beta)`, evaluating with `evaluate` and ordering with `sorter`:
/// with `e` the evaluation of `b`, `beta` when `e >= beta`; `e` when there is
/// no capture; otherwise the captures in sorted order from
/// `max(alpha, e)` on (see `capture_loop`).
pub open spec fn quiescence_value<E: Fn(&Board) -> i32>(evaluate: E, sorter: MoveSorter, b: Board, alpha: i32, beta: i32, r: i32) -> bool
    decreases quiet_measure(&b), 1int, 0int,
{
    exists|e: i32| {
        &&& #[trigger] call_ensures(evaluate, (&b,), e)
        &&& if e >= beta {
            r == beta
        } else if capture_moves(&b).len() == 0 {
            r == e
        } else {
            exists|s: Seq<(i32, MoveData)>| {
                &&& #[trigger] sorted_as(&sorter, b.white_to_move, capture_moves(&b), spec_null_move(), usize::MAX as int, s)
                &&& capture_loop(evaluate, sorter, b, e, max_i32(alpha, e), beta, s, 0, r)
            }
        }
    }
}

/// The fail-hard loop over the sorted captures `s` from index `k` with the
/// current `alpha`: out of check, a capture whose margin cannot lift `e` to
/// `alpha` is skipped, as is one that leaves the own king attacked; for
/// another, with `c` a quiescence result of the board after it (window
/// `(-beta, -alpha)`) and `v` its negation, `beta` when `v >= beta`, else the
/// loop goes on with `max(alpha, v)`; past the end the result is `alpha`.
/// (The board after a capture always has a smaller `quiet_measure`.)
pub open spec fn capture_loop<E: Fn(&Board) -> i32>(
    evaluate: E,
    sorter: MoveSorter,
    b: Board,
    e: i32,
    alpha: i32,
    beta: i32,
    s: Seq<(i32, MoveData)>,
    k: int,
    r: i32,
) -> bool
    decreases quiet_measure(&b), 0int, s.len() - k,
{
    if k < 0 || k >= s.len() {
        r == alpha
    } else {
        let m = s[k].1;
        if !in_check(&b) && e < (alpha - delta_margin(m)) as i32 {
            capture_loop(evaluate, sorter, b, e, alpha, beta, s, k + 1, r)
        } else if king_attacked(apply_move_view(b.view(), m), occupancy_for(apply_move_view(b.view(), m)), b.white_to_move) {
            capture_loop(evaluate, sorter, b, e, alpha, beta, s, k + 1, r)
        } else {
            exists|b2: Board, c: i32| #![trigger b2.is_after_move(&b, m), spec_negate(c)] {
                &&& b2.is_after_move(&b, m)
                &&& quiet_measure(&b2) < quiet_measure(&b)
                &&& quiescence_value(evaluate, sorter, b2, spec_negate(beta), spec_negate(alpha), c)
                &&& if spec_negate(c) >= beta {
                    r == beta
                } else {
                    capture_loop(evaluate, sorter, b, e, max_i32(alpha, spec_negate(c)), beta, s, k + 1, r)
                }
            }
        }
    }
}

/// One searched capture of the fail-hard loop: the loop's result at `k`
/// follows from a child board and a child result.
proof fn lemma_capture_step<E: Fn(&Board) -> i32>(
    evaluate: E,
    sorter: MoveSorter,
    b: Board,
    e: i32,
    alpha: i32,
    beta: i32,
    s: Seq<(i32, MoveData)>,
    k: int,
    b2: Board,
    c: i32,
    r: i32,
)
    requires
        0 <= k < s.len(),
        !(!in_check(&b) && e < (alpha - delta_margin(s[k].1)) as i32),
        !king_attacked(apply_move_view(b.view(), s[k].1), occupancy_for(apply_move_view(b.view(), s[k].1)), b.white_to_move),
        b2.is_after_move(&b, s[k].1),
        quiet_measure(&b2) < quiet_measure(&b),
        quiescence_value(evaluate, sorter, b2, spec_negate(beta), spec_negate(alpha), c),
        if spec_negate(c) >= beta {
            r == beta
        } else {
            capture_loop(evaluate, sorter, b, e, max_i32(alpha, spec_negate(c)), beta, s, k + 1, r)
        },
    ensures
        capture_loop(evaluate, sorter, b, e, alpha, beta, s, k, r),
{
}

/// A skipped capture: the loop's result at `k` is its result at `k + 1`.
proof fn lemma_capture_skip<E: Fn(&Board) -> i32>(
    evaluate: E,
    sorter: MoveSorter,
    b: Board,
    e: i32,
    alpha: i32,
    beta: i32,
    s: Seq<(i32, MoveData)>,
    k: int,
    r: i32,
)
    requires
        0 <= k < s.len(),
        (!in_check(&b) && e < (alpha - delta_margin(s[k].1)) as i32) || king_attacked(apply_move_view(b.view(), s[k].1),
            occupancy_for(apply_move_view(b.view(), s[k].1)), b.white_to_move),
        capture_loop(evaluate, sorter, b, e, alpha, beta, s, k + 1, r),
    ensures
        capture_loop(evaluate, sorter, b, e, alpha, beta, s, k, r),
{
}

/// The quiescence value of a board whose captures are searched.
proof fn lemma_quiescence_value_intro<E: Fn(&Board) -> i32>(
    evaluate: E,
    sorter: MoveSorter,
    b: Board,
    alpha: i32,
    beta: i32,
    e: i32,
    s: Seq<(i32, MoveData)>,
    r: i32,
)
    requires
        call_ensures(evaluate, (&b,), e),
        e < beta,
        capture_moves(&b).len() > 0,
        sorted_as(&sorter, b.white_to_move, capture_moves(&b), spec_null_move(), usize::MAX as int, s),
        capture_loop(evaluate, sorter, b, e, max_i32(alpha, e), beta, s, 0, r),
    ensures
        quiescence_value(evaluate, sorter, b, alpha, beta, r),
{
}

/// Every move that was sorted occurs in the sorted list.
proof fn lemma_sorted_covers(s: &MoveSorter, white: bool, moves: Seq<MoveData>, hash: MoveData, ply: int, r: Seq<(i32, MoveData)>,
    m: MoveData)
    requires
        sorted_as(s, white, moves, hash, ply, r),
        moves.contains(m),
    ensures
        exists|j: int| 0 <= j < r.len() && (#[trigger] r[j]).1 == m,
{
    broadcast use vstd::seq_lib::group_to_multiset_ensures;
    let k = choose|k: int| 0 <= k < moves.len() && moves[k] == m;
    let sc = scored_moves(s, white, moves, hash, ply);
    assert(sc[k].1 == m);
    assert(sc.contains(sc[k]));
    assert(sc.to_multiset().count(sc[k]) > 0);
    assert(r.to_multiset().count(sc[k]) > 0);
    assert(r.contains(sc[k]));
    let j = choose|j: int| 0 <= j < r.len() && r[j] == sc[k];
    assert(r[j].1 == m);
}

/// What of a search's state the search itself reads or changes: the table,
/// the move ordering, and the iteration's best move, its evaluation and
/// whether a root move was searched.
pub type SearchModel = (Map<u64, TranspositionData>, MoveSorter, MoveData, i32, bool);

/// One aspiration try of the root search: the board `b`, the state `m0`
/// and the window from `alpha` to `beta` (a trigger).
pub open spec fn aspiration_try(b: Board, m0: SearchModel, alpha: i32, beta: i32) -> bool {
    true
}

pub open spec fn model(s: &Search) -> SearchModel {
    (s.transposition_table.table@, s.move_sorter, s.best_move_this_iteration, s.evaluation_this_iteration, s.searched_one_move)
}

pub open spec fn with_table(m: SearchModel, t: Map<u64, TranspositionData>) -> SearchModel {
    (t, m.1, m.2, m.3, m.4)
}

/// The table after `store`.
pub open spec fn stored(t: Map<u64, TranspositionData>, key: u64, depth: u8, evaluation: i32, best_move: MoveData, node_type: NodeType) -> Map<
    u64,
    TranspositionData,
> {
    if keeps_stored(t, key, depth, node_type) {
        t
    } else {
        t.insert(key, TranspositionData { depth, evaluation, best_move, age: 0, node_type })
    }
}

/// The history score of a quiet cutoff move after `add_history`.
pub open spec fn history_next(cur: int, depth: u8) -> int {
    if cur > i32::MAX - 5000 - depth * depth { i32::MAX - 5000 } else { cur + depth * depth }
}

/// `s2` is `s` with `depth * depth` added to the history score of `m` for the
/// side `white` (capped below the bound move scoring needs).
pub open spec fn history_added(s: MoveSorter, white: bool, m: MoveData, depth: u8, s2: MoveSorter) -> bool {
    let c: int = if white { 1 } else { 0 };
    &&& s2.killer_moves == s.killer_moves
    &&& forall|cc: int, ff: int, tt: int| 0 <= cc < 2 && 0 <= ff < 64 && 0 <= tt < 64 ==> #[trigger] history_at(&s2, cc, ff, tt)
        == if cc == c && ff == m.from && tt == m.to { history_next(history_at(&s, cc, ff, tt), depth) } else { history_at(&s, cc, ff, tt) }
}

/// `s2` is `s` with `m` pushed as a killer at `ply` (as `push_killer_move` does).
pub open spec fn killer_pushed(s: MoveSorter, m: MoveData, ply: int, s2: MoveSorter) -> bool {
    &&& s2.history == s.history
    &&& ply >= MAX_SORT_MOVE_PLY ==> s2.killer_moves == s.killer_moves
    &&& ply < MAX_SORT_MOVE_PLY ==> {
        &&& s2.killer_moves@ == s.killer_moves@.update(ply, s2.killer_moves@[ply])
        &&& crate::killer_moves::KillerMoves::added(s.killer_moves@[ply], m, s2.killer_moves@[ply])
    }
}

/// The move ordering after a cutoff by `m`: a quiet move becomes a killer
/// and gains history; a capture changes nothing.
pub open spec fn cutoff_sorter(s: MoveSorter, white: bool, m: MoveData, ply: u8, depth: u8, s2: MoveSorter) -> bool {
    if m.capture == NO_PIECE {
        exists|mid: MoveSorter| #[trigger] killer_pushed(s, m, ply as int, mid) && history_added(mid, white, m, depth, s2)
    } else {
        s2 == s
    }
}

/// A null window: `alpha` is `beta - 1` (with `beta - 1` wrapping).
pub open spec fn null_window(alpha: i32, beta: i32) -> bool {
    if beta == i32::MIN { alpha == i32::MAX } else { alpha == beta - 1 }
}

/// The search measure: remaining depth plus the extensions still allowed.
pub open spec fn search_measure(depth: u8, total: u8) -> int {
    depth + MAX_SEARCH_EXTENSIONS - total
}

/// The extension of a move: one for a check, one for a (black) pawn move to
/// the second or seventh row, within the extensions still allowed.
pub open spec fn extension_of(b: &Board, m: MoveData, total: u8) -> u8 {
    let after = apply_move_view(b.view(), m);
    let check: int = if king_attacked(after, occupancy_for(after), !b.white_to_move) { 1 } else { 0 };
    let pawn: int = if m.piece == PAWN && (m.to / 8 == 1 || m.to / 8 == 6) { 1 } else { 0 };
    let room = MAX_SEARCH_EXTENSIONS - total;
    (if check + pawn > room { room } else { check + pawn }) as u8
}

/// Marks the witnesses of a child search in the search relation: the board
/// searched, its score and the state after it (always true).
pub open spec fn searched_child(b2: Board, c: i32, m2: SearchModel) -> bool {
    true
}

/// Marks the sorted move list in the search relation (always true).
pub open spec fn move_order(s: Seq<(i32, MoveData)>) -> bool {
    true
}

/// Marks the score of a move and the state after searching it (always true).
pub open spec fn move_outcome(v: i32, m2: SearchModel) -> bool {
    true
}

/// `b2` is the board after the side to move of `b` passes.
pub open spec fn after_pass(b2: &Board, b: &Board) -> bool {
    &&& b2.view() == b.view()
    &&& b2.occupied_spec() == b.occupied_spec()
    &&& b2.moves@ == b.moves@.push(spec_null_move())
    &&& b2.white_to_move == !b.white_to_move
    &&& b2.board_state.current.castling_rights == b.board_state.current.castling_rights
    &&& b2.board_state.current.fifty_move_counter == 0
}

/// `r` and `m1` are a result and the state after the alpha-beta search of
/// `b` (see `alpha_beta_search`) from state `m0`, with `root_best` the best
/// move of the last iteration. Below the root: a draw scores 0, a closed
/// mate-distance window its lower end, and a table entry that answers the
/// probe its score; the probe freshens the entry it answers; then the
/// internal iterative reduction and the node (see `ab_node`).
pub open spec fn ab_value<E: Fn(&Board) -> i32>(
    ev: E,
    root_best: MoveData,
    m0: SearchModel,
    b: Board,
    depth: u8,
    ply: u8,
    alpha: i32,
    beta: i32,
    total: u8,
    r: i32,
    m1: SearchModel,
) -> bool
    decreases search_measure(depth, total), 6int, 0int, 0int,
{
    let mate_value = CHECKMATE_EVAL - ply;
    let a = max_int(alpha as int, -mate_value);
    let key = b.zobrist.key.current;
    let hit = tt_answers(m0.0, key, depth, alpha, beta);
    let ma = if hit { with_table(m0, m0.0.insert(key, with_age(m0.0[key], 0))) } else { m0 };
    if ply > 0 && b.draw_spec() {
        r == 0 && m1 == m0
    } else if ply > 0 && !mate_window_open(alpha, beta, ply) {
        r == a && m1 == m0
    } else if ply > 0 && hit {
        r == m0.0[key].evaluation && m1 == ma
    } else {
        let hash = if hit { m0.0[key].best_move } else { spec_null_move() };
        let d1: u8 = if ply > 0 && depth > 1 && !hit { (depth - 1) as u8 } else { depth };
        ab_node(ev, root_best, ma, b, depth, d1, ply, alpha, beta, total, hash, r, m1)
    }
}

/// The node: in a null window out of check and away from mate scores, the
/// evaluation `e` of the board decides the pruning (see `ab_pruning`);
/// otherwise the moves are searched (see `ab_moves`).
pub open spec fn ab_node<E: Fn(&Board) -> i32>(
    ev: E,
    root_best: MoveData,
    m: SearchModel,
    b: Board,
    depth: u8,
    d1: u8,
    ply: u8,
    alpha: i32,
    beta: i32,
    total: u8,
    hash: MoveData,
    r: i32,
    m1: SearchModel,
) -> bool
    decreases search_measure(depth, total), 5int, 0int, 0int,
{
    if null_window(alpha, beta) && d1 > 0 && !in_check(&b) && !is_mate_score(alpha) && !is_mate_score(beta) {
        exists|be: Board, e: i32| #![trigger be.same_position(&b), call_ensures(ev, (&be,), e)] {
            &&& be.same_position(&b)
            &&& call_ensures(ev, (&be,), e)
            &&& ab_pruning(ev, root_best, m, b, depth, d1, ply, alpha, beta, total, hash, e, r, m1)
        }
    } else {
        ab_moves(ev, root_best, m, b, depth, d1, ply, alpha, beta, total, hash, r, m1)
    }
}

/// The pruning by the evaluation `e`: reverse futility pruning gives `beta`;
/// null-move pruning (when the side has pieces besides pawns and the last
/// move was quiet and not a pass) searches the position after a pass,
/// reduced, in a null window at `beta` and gives its score when it reaches
/// `beta`; then razoring (see `ab_razor`).
pub open spec fn ab_pruning<E: Fn(&Board) -> i32>(
    ev: E,
    root_best: MoveData,
    m: SearchModel,
    b: Board,
    depth: u8,
    d1: u8,
    ply: u8,
    alpha: i32,
    beta: i32,
    total: u8,
    hash: MoveData,
    e: i32,
    r: i32,
    m1: SearchModel,
) -> bool
    decreases search_measure(depth, total), 4int, 0int, 0int,
{
    let side: int = if b.white_to_move { 1 } else { 0 };
    let last = last_move_of(b.moves@);
    let reduction: int = 3 + (d1 - 2) / 3;
    let child_depth: u8 = if d1 > reduction { (d1 - reduction) as u8 } else { 0 };
    if d1 < 8 && (e - (55 + 50 * ((d1 - 1) * (d1 - 1)))) as i32 >= beta {
        r == beta && m1 == m
    } else if d1 > 1 && e >= beta && material_of(b.view(), side) > 0 && last.capture == NO_PIECE && !same_move(
        last,
        spec_null_move(),
    ) {
        exists|bn: Board, c: i32, mn: SearchModel| #![trigger searched_child(bn, c, mn)] {
            &&& searched_child(bn, c, mn)
            &&& after_pass(&bn, &b)
            &&& 0 <= search_measure(child_depth, total) < search_measure(depth, total)
            &&& ab_value(ev, root_best, m, bn, child_depth, (ply + 1) as u8, spec_negate(beta), (spec_negate(beta) + 1) as i32,
                total, c, mn)
            &&& if spec_negate(c) >= beta {
                r == spec_negate(c) && m1 == mn
            } else {
                ab_razor(ev, root_best, mn, b, depth, d1, ply, alpha, beta, total, hash, e, r, m1)
            }
        }
    } else {
        ab_razor(ev, root_best, m, b, depth, d1, ply, alpha, beta, total, hash, e, r, m1)
    }
}

/// Razoring: below depth 4, an evaluation that a margin cannot lift to
/// `alpha` takes one ply off.
pub open spec fn ab_razor<E: Fn(&Board) -> i32>(
    ev: E,
    root_best: MoveData,
    m: SearchModel,
    b: Board,
    depth: u8,
    d1: u8,
    ply: u8,
    alpha: i32,
    beta: i32,
    total: u8,
    hash: MoveData,
    e: i32,
    r: i32,
    m1: SearchModel,
) -> bool
    decreases search_measure(depth, total), 3int, 0int, 0int,
{
    let d2: u8 = if d1 < 4 && ((e + (300 + 150 * (d1 - 1))) as i32) < alpha { (d1 - 1) as u8 } else { d1 };
    ab_moves(ev, root_best, m, b, depth, d2, ply, alpha, beta, total, hash, r, m1)
}

/// At depth 0 the quiescence search; otherwise the moves in the sorter's
/// order (the last iteration's best move first at the root, else the table's
/// move) through the fail-hard loop (see `ab_loop`).
pub open spec fn ab_moves<E: Fn(&Board) -> i32>(
    ev: E,
    root_best: MoveData,
    m: SearchModel,
    b: Board,
    depth: u8,
    d2: u8,
    ply: u8,
    alpha: i32,
    beta: i32,
    total: u8,
    hash: MoveData,
    r: i32,
    m1: SearchModel,
) -> bool
    decreases search_measure(depth, total), 2int, 0int, 0int,
{
    let hm = if ply == 0 && !same_move(root_best, spec_null_move()) { root_best } else { hash };
    if d2 == 0 {
        exists|bq: Board| #![trigger bq.same_position(&b)] bq.same_position(&b) && quiescence_value(ev, m.1, bq, alpha, beta, r) && m1 == m
    } else {
        exists|s: Seq<(i32, MoveData)>| #![trigger move_order(s)] {
            &&& move_order(s)
            &&& sorted_as(&m.1, b.white_to_move, position_move_list(&b), hm, ply as int, s)
            &&& ab_loop(ev, root_best, m, b, depth, d2, ply, alpha, beta, total, s, 0, alpha, spec_null_move(), false, 0, r, m1)
        }
    }
}

/// The fail-hard move loop from index `k`, with the current `cur` bound, the
/// best move so far, whether a move raised the bound and how many legal
/// moves were searched: a move that leaves the own king attacked is skipped;
/// for another, `v` is its score (see `move_score_of`); `v >= beta` stores a
/// lower bound, updates the move ordering and gives `beta`; a `v` above
/// `cur` raises it (and at the root records the move). Past the end: no
/// legal move gives a mate or stalemate score; otherwise an exact entry is
/// stored for the best move (when one raised the bound) and `cur` is the result.
pub open spec fn ab_loop<E: Fn(&Board) -> i32>(
    ev: E,
    root_best: MoveData,
    m: SearchModel,
    b: Board,
    depth: u8,
    d2: u8,
    ply: u8,
    alpha: i32,
    beta: i32,
    total: u8,
    s: Seq<(i32, MoveData)>,
    k: int,
    cur: i32,
    best: MoveData,
    found_pv: bool,
    count: int,
    r: i32,
    m1: SearchModel,
) -> bool
    decreases search_measure(depth, total), 1int, s.len() - k, 4int,
{
    let key = b.zobrist.key.current;
    if k < 0 || k >= s.len() {
        if count == 0 {
            r == (if in_check(&b) { -(CHECKMATE_EVAL - ply) } else { 0 }) && m1 == m
        } else {
            &&& r == cur
            &&& m1 == if !same_move(best, spec_null_move()) { with_table(m, stored(m.0, key, d2, cur, best, NodeType::Exact)) } else { m }
        }
    } else {
        let mv = s[k].1;
        if !legal_move(&b, mv) {
            ab_loop(ev, root_best, m, b, depth, d2, ply, alpha, beta, total, s, k + 1, cur, best, found_pv, count, r, m1)
        } else {
            exists|v: i32, mc: SearchModel| #![trigger move_outcome(v, mc)] {
                &&& move_outcome(v, mc)
                &&& move_score_of(ev, root_best, m, b, depth, d2, ply, alpha, beta, total, s, k, cur, found_pv, count, v, mc)
                &&& if v >= beta {
                    &&& r == beta
                    &&& m1.0 == stored(mc.0, key, d2, beta, mv, NodeType::LowerBound)
                    &&& cutoff_sorter(mc.1, b.white_to_move, mv, ply, d2, m1.1)
                    &&& m1.2 == mc.2 && m1.3 == mc.3 && m1.4 == mc.4
                } else if v > cur {
                    ab_loop(ev, root_best, if ply == 0 { (mc.0, mc.1, mv, v, true) } else { mc }, b, depth, d2, ply, alpha, beta, total, s,
                        k + 1, v, mv, true, count + 1, r, m1)
                } else {
                    ab_loop(ev, root_best, mc, b, depth, d2, ply, alpha, beta, total, s, k + 1, cur, best, found_pv, count + 1, r, m1)
                }
            }
        }
    }
}

/// The score `v` of the legal move `s[k].1` and the state `mc` after it:
/// late-move reduction (a quiet, unextended move after the fourth, reduced
/// by 2, one more after a raise and one more in a null window) in a null
/// window at `cur`; then, when that was not enough, the principal variation
/// search (see `pvs_score`).
pub open spec fn move_score_of<E: Fn(&Board) -> i32>(
    ev: E,
    root_best: MoveData,
    m: SearchModel,
    b: Board,
    depth: u8,
    d2: u8,
    ply: u8,
    alpha: i32,
    beta: i32,
    total: u8,
    s: Seq<(i32, MoveData)>,
    k: int,
    cur: i32,
    found_pv: bool,
    count: int,
    v: i32,
    mc: SearchModel,
) -> bool
    decreases search_measure(depth, total), 1int, s.len() - k, 3int,
{
    let mv = s[k].1;
    let ext = extension_of(&b, mv, total);
    let reduction: int = 2 + (if found_pv { 1int } else { 0 }) + (if null_window(alpha, beta) { 1int } else { 0 });
    let child_depth: u8 = if d2 > reduction { (d2 - reduction) as u8 } else { 0 };
    if count > 3 && d2 > 1 && ext == 0 && mv.capture == NO_PIECE {
        exists|b1: Board, c1: i32, ma: SearchModel| #![trigger searched_child(b1, c1, ma)] {
            &&& searched_child(b1, c1, ma)
            &&& b1.is_after_move(&b, mv)
            &&& 0 <= search_measure(child_depth, total) < search_measure(depth, total)
            &&& ab_value(ev, root_best, m, b1, child_depth, (ply + 1) as u8, (spec_negate(cur) - 1) as i32, spec_negate(cur), total, c1,
                ma)
            &&& pvs_score(ev, root_best, ma, b, depth, d2, ply, alpha, beta, total, s, k, cur, found_pv, spec_negate(c1),
                spec_negate(c1) > cur, v, mc)
        }
    } else {
        pvs_score(ev, root_best, m, b, depth, d2, ply, alpha, beta, total, s, k, cur, found_pv, 0, true, v, mc)
    }
}

/// Principal variation search: after a raise, a move that still needs a
/// fuller search is first searched in a null window at `cur`; then (see
/// `full_score`) the full window.
pub open spec fn pvs_score<E: Fn(&Board) -> i32>(
    ev: E,
    root_best: MoveData,
    m: SearchModel,
    b: Board,
    depth: u8,
    d2: u8,
    ply: u8,
    alpha: i32,
    beta: i32,
    total: u8,
    s: Seq<(i32, MoveData)>,
    k: int,
    cur: i32,
    found_pv: bool,
    v0: i32,
    needs: bool,
    v: i32,
    mc: SearchModel,
) -> bool
    decreases search_measure(depth, total), 1int, s.len() - k, 2int,
{
    let mv = s[k].1;
    let ext = extension_of(&b, mv, total);
    let child_depth: u8 = (d2 + ext - 1) as u8;
    if needs && found_pv {
        exists|b2: Board, c2: i32, ma: SearchModel| #![trigger searched_child(b2, c2, ma)] {
            &&& searched_child(b2, c2, ma)
            &&& b2.is_after_move(&b, mv)
            &&& 0 <= search_measure(child_depth, (total + ext) as u8) < search_measure(depth, total)
            &&& ab_value(ev, root_best, m, b2, child_depth, (ply + 1) as u8, (spec_negate(cur) - 1) as i32, spec_negate(cur),
                (total + ext) as u8, c2, ma)
            &&& full_score(ev, root_best, ma, b, depth, d2, ply, alpha, beta, total, s, k, cur, spec_negate(c2), spec_negate(c2) > cur, v, mc)
        }
    } else {
        full_score(ev, root_best, m, b, depth, d2, ply, alpha, beta, total, s, k, cur, v0, needs, v, mc)
    }
}

/// The full-window search of a move that still needs it; otherwise the score
/// found so far.
pub open spec fn full_score<E: Fn(&Board) -> i32>(
    ev: E,
    root_best: MoveData,
    m: SearchModel,
    b: Board,
    depth: u8,
    d2: u8,
    ply: u8,
    alpha: i32,
    beta: i32,
    total: u8,
    s: Seq<(i32, MoveData)>,
    k: int,
    cur: i32,
    v0: i32,
    needs: bool,
    v: i32,
    mc: SearchModel,
) -> bool
    decreases search_measure(depth, total), 1int, s.len() - k, 1int,
{
    let mv = s[k].1;
    let ext = extension_of(&b, mv, total);
    let child_depth: u8 = (d2 + ext - 1) as u8;
    if needs {
        exists|b3: Board, c3: i32| #![trigger searched_child(b3, c3, mc)] {
            &&& searched_child(b3, c3, mc)
            &&& b3.is_after_move(&b, mv)
            &&& 0 <= search_measure(child_depth, (total + ext) as u8) < search_measure(depth, total)
            &&& ab_value(ev, root_best, m, b3, child_depth, (ply + 1) as u8, spec_negate(beta), spec_negate(cur), (total + ext) as u8, c3,
                mc)
            &&& v == spec_negate(c3)
        }
    } else {
        v == v0 && mc == m
    }
}

/// A board in the same position as one reached from `b0` by `m` is reached from `b0` by `m`.
proof fn lemma_after_move_same(before: &Board, b0: &Board, m: MoveData, a1: &Board, a2: &Board)
    requires
        before.wf(),
        b0.wf(),
        move_fits(b0.view(), m),
        before.same_position(b0),
        a1.is_after_move(before, m),
        a2.same_position(a1),
    ensures
        a2.is_after_move(b0, m),
{
    lemma_after_move_transfer(before, b0, m, a1);
    assert forall|k: int| 0 <= k <= b0.zobrist.key.index implies #[trigger] a2.zobrist.key.history@[k] == b0.zobrist.key.history@[k] by {
        assert(a1.zobrist.key.history@[k] == b0.zobrist.key.history@[k]);
    }
    assert forall|k: int| 0 <= k <= b0.board_state.index implies #[trigger] a2.board_state.history@[k] == b0.board_state.history@[k] by {
        assert(a1.board_state.history@[k] == b0.board_state.history@[k]);
    }
}

proof fn lemma_value_early<E: Fn(&Board) -> i32>(ev: E, bm: MoveData, m0: SearchModel, b: Board, depth: u8, ply: u8, alpha: i32,
    beta: i32, total: u8, r: i32, m1: SearchModel)
    requires
        ply > 0,
        (b.draw_spec() && r == 0 && m1 == m0) || (!b.draw_spec() && !mate_window_open(alpha, beta, ply) && r == max_int(alpha as int,
            -(CHECKMATE_EVAL - ply)) && m1 == m0) || (!b.draw_spec() && mate_window_open(alpha, beta, ply) && tt_answers(m0.0,
            b.zobrist.key.current, depth, alpha, beta) && r == m0.0[b.zobrist.key.current].evaluation && m1 == with_table(m0,
            m0.0.insert(b.zobrist.key.current, with_age(m0.0[b.zobrist.key.current], 0)))),
    ensures
        ab_value(ev, bm, m0, b, depth, ply, alpha, beta, total, r, m1),
{
}

proof fn lemma_value_node<E: Fn(&Board) -> i32>(ev: E, bm: MoveData, m0: SearchModel, b: Board, depth: u8, ply: u8, alpha: i32,
    beta: i32, total: u8, r: i32, m1: SearchModel)
    requires
        ply > 0 ==> !b.draw_spec() && mate_window_open(alpha, beta, ply) && !tt_answers(m0.0, b.zobrist.key.current, depth, alpha, beta),
        ab_node(ev, bm, if tt_answers(m0.0, b.zobrist.key.current, depth, alpha, beta) { with_table(m0, m0.0.insert(
            b.zobrist.key.current, with_age(m0.0[b.zobrist.key.current], 0))) } else { m0 }, b, depth,
            if ply > 0 && depth > 1 && !tt_answers(m0.0, b.zobrist.key.current, depth, alpha, beta) { (depth - 1) as u8 } else { depth },
            ply, alpha, beta, total, if tt_answers(m0.0, b.zobrist.key.current, depth, alpha, beta) {
            m0.0[b.zobrist.key.current].best_move } else { spec_null_move() }, r, m1),
    ensures
        ab_value(ev, bm, m0, b, depth, ply, alpha, beta, total, r, m1),
{
}

proof fn lemma_node_pruning<E: Fn(&Board) -> i32>(ev: E, bm: MoveData, m: SearchModel, b: Board, depth: u8, d1: u8, ply: u8,
    alpha: i32, beta: i32, total: u8, hash: MoveData, be: Board, e: i32, r: i32, m1: SearchModel)
    requires
        null_window(alpha, beta) && d1 > 0 && !in_check(&b) && !is_mate_score(alpha) && !is_mate_score(beta),
        be.same_position(&b),
        call_ensures(ev, (&be,), e),
        ab_pruning(ev, bm, m, b, depth, d1, ply, alpha, beta, total, hash, e, r, m1),
    ensures
        ab_node(ev, bm, m, b, depth, d1, ply, alpha, beta, total, hash, r, m1),
{
}

proof fn lemma_node_moves<E: Fn(&Board) -> i32>(ev: E, bm: MoveData, m: SearchModel, b: Board, depth: u8, d1: u8, ply: u8,
    alpha: i32, beta: i32, total: u8, hash: MoveData, r: i32, m1: SearchModel)
    requires
        !(null_window(alpha, beta) && d1 > 0 && !in_check(&b) && !is_mate_score(alpha) && !is_mate_score(beta)),
        ab_moves(ev, bm, m, b, depth, d1, ply, alpha, beta, total, hash, r, m1),
    ensures
        ab_node(ev, bm, m, b, depth, d1, ply, alpha, beta, total, hash, r, m1),
{
}

/// The null-move condition of `ab_pruning`.
pub open spec fn null_move_tried(b: &Board, d1: u8, e: i32, beta: i32) -> bool {
    let side: int = if b.white_to_move { 1 } else { 0 };
    let last = last_move_of(b.moves@);
    d1 > 1 && e >= beta && material_of(b.view(), side) > 0 && last.capture == NO_PIECE && !same_move(last, spec_null_move())
}

pub open spec fn futility_cut(d1: u8, e: i32, beta: i32) -> bool {
    d1 < 8 && (e - (55 + 50 * ((d1 - 1) * (d1 - 1)))) as i32 >= beta
}

proof fn lemma_pruning_cut<E: Fn(&Board) -> i32>(ev: E, bm: MoveData, m: SearchModel, b: Board, depth: u8, d1: u8, ply: u8,
    alpha: i32, beta: i32, total: u8, hash: MoveData, e: i32)
    requires
        futility_cut(d1, e, beta),
    ensures
        ab_pruning(ev, bm, m, b, depth, d1, ply, alpha, beta, total, hash, e, beta, m),
{
}

proof fn lemma_pruning_null<E: Fn(&Board) -> i32>(ev: E, bm: MoveData, m: SearchModel, b: Board, depth: u8, d1: u8, ply: u8,
    alpha: i32, beta: i32, total: u8, hash: MoveData, e: i32, bn: Board, c: i32, mn: SearchModel, r: i32, m1: SearchModel)
    requires
        !futility_cut(d1, e, beta),
        null_move_tried(&b, d1, e, beta),
        after_pass(&bn, &b),
        0 <= search_measure((if d1 > 3 + (d1 - 2) / 3 { (d1 - (3 + (d1 - 2) / 3)) as u8 } else { 0u8 }), total) < search_measure(depth,
            total),
        ab_value(ev, bm, m, bn, (if d1 > 3 + (d1 - 2) / 3 { (d1 - (3 + (d1 - 2) / 3)) as u8 } else { 0u8 }), (ply + 1) as u8,
            spec_negate(beta), (spec_negate(beta) + 1) as i32, total, c, mn),
        if spec_negate(c) >= beta {
            r == spec_negate(c) && m1 == mn
        } else {
            ab_razor(ev, bm, mn, b, depth, d1, ply, alpha, beta, total, hash, e, r, m1)
        },
    ensures
        ab_pruning(ev, bm, m, b, depth, d1, ply, alpha, beta, total, hash, e, r, m1),
{
    assert(searched_child(bn, c, mn));
}

proof fn lemma_pruning_razor<E: Fn(&Board) -> i32>(ev: E, bm: MoveData, m: SearchModel, b: Board, depth: u8, d1: u8, ply: u8,
    alpha: i32, beta: i32, total: u8, hash: MoveData, e: i32, r: i32, m1: SearchModel)
    requires
        !futility_cut(d1, e, beta),
        !null_move_tried(&b, d1, e, beta),
        ab_razor(ev, bm, m, b, depth, d1, ply, alpha, beta, total, hash, e, r, m1),
    ensures
        ab_pruning(ev, bm, m, b, depth, d1, ply, alpha, beta, total, hash, e, r, m1),
{
}

proof fn lemma_razor<E: Fn(&Board) -> i32>(ev: E, bm: MoveData, m: SearchModel, b: Board, depth: u8, d1: u8, ply: u8, alpha: i32,
    beta: i32, total: u8, hash: MoveData, e: i32, r: i32, m1: SearchModel)
    requires
        ab_moves(ev, bm, m, b, depth, if d1 < 4 && ((e + (300 + 150 * (d1 - 1))) as i32) < alpha { (d1 - 1) as u8 } else { d1 }, ply,
            alpha, beta, total, hash, r, m1),
    ensures
        ab_razor(ev, bm, m, b, depth, d1, ply, alpha, beta, total, hash, e, r, m1),
{
}

proof fn lemma_moves_quiet<E: Fn(&Board) -> i32>(ev: E, bm: MoveData, m: SearchModel, b: Board, depth: u8, ply: u8, alpha: i32,
    beta: i32, total: u8, hash: MoveData, bq: Board, r: i32)
    requires
        bq.same_position(&b),
        quiescence_value(ev, m.1, bq, alpha, beta, r),
    ensures
        ab_moves(ev, bm, m, b, depth, 0, ply, alpha, beta, total, hash, r, m),
{
}

proof fn lemma_moves_loop<E: Fn(&Board) -> i32>(ev: E, bm: MoveData, m: SearchModel, b: Board, depth: u8, d2: u8, ply: u8, alpha: i32,
    beta: i32, total: u8, hash: MoveData, s: Seq<(i32, MoveData)>, r: i32, m1: SearchModel)
    requires
        d2 > 0,
        sorted_as(&m.1, b.white_to_move, position_move_list(&b), if ply == 0 && !same_move(bm, spec_null_move()) { bm } else { hash },
            ply as int, s),
        ab_loop(ev, bm, m, b, depth, d2, ply, alpha, beta, total, s, 0, alpha, spec_null_move(), false, 0, r, m1),
    ensures
        ab_moves(ev, bm, m, b, depth, d2, ply, alpha, beta, total, hash, r, m1),
{
    assert(move_order(s));
}

proof fn lemma_loop_end<E: Fn(&Board) -> i32>(ev: E, bm: MoveData, m: SearchModel, b: Board, depth: u8, d2: u8, ply: u8, alpha: i32,
    beta: i32, total: u8, s: Seq<(i32, MoveData)>, cur: i32, best: MoveData, found_pv: bool, count: int, r: i32, m1: SearchModel)
    requires
        count == 0 ==> r == (if in_check(&b) { -(CHECKMATE_EVAL - ply) } else { 0 }) && m1 == m,
        count != 0 ==> r == cur && m1 == if !same_move(best, spec_null_move()) { with_table(m, stored(m.0, b.zobrist.key.current, d2, cur,
            best, NodeType::Exact)) } else { m },
    ensures
        ab_loop(ev, bm, m, b, depth, d2, ply, alpha, beta, total, s, s.len() as int, cur, best, found_pv, count, r, m1),
{
}

proof fn lemma_loop_skip<E: Fn(&Board) -> i32>(ev: E, bm: MoveData, m: SearchModel, b: Board, depth: u8, d2: u8, ply: u8, alpha: i32,
    beta: i32, total: u8, s: Seq<(i32, MoveData)>, k: int, cur: i32, best: MoveData, found_pv: bool, count: int, r: i32, m1: SearchModel)
    requires
        0 <= k < s.len(),
        !legal_move(&b, s[k].1),
        ab_loop(ev, bm, m, b, depth, d2, ply, alpha, beta, total, s, k + 1, cur, best, found_pv, count, r, m1),
    ensures
        ab_loop(ev, bm, m, b, depth, d2, ply, alpha, beta, total, s, k, cur, best, found_pv, count, r, m1),
{
}

proof fn lemma_loop_step<E: Fn(&Board) -> i32>(ev: E, bm: MoveData, m: SearchModel, b: Board, depth: u8, d2: u8, ply: u8, alpha: i32,
    beta: i32, total: u8, s: Seq<(i32, MoveData)>, k: int, cur: i32, best: MoveData, found_pv: bool, count: int, v: i32, mc: SearchModel,
    r: i32, m1: SearchModel)
    requires
        0 <= k < s.len(),
        legal_move(&b, s[k].1),
        move_score_of(ev, bm, m, b, depth, d2, ply, alpha, beta, total, s, k, cur, found_pv, count, v, mc),
        if v >= beta {
            &&& r == beta
            &&& m1.0 == stored(mc.0, b.zobrist.key.current, d2, beta, s[k].1, NodeType::LowerBound)
            &&& cutoff_sorter(mc.1, b.white_to_move, s[k].1, ply, d2, m1.1)
            &&& m1.2 == mc.2 && m1.3 == mc.3 && m1.4 == mc.4
        } else if v > cur {
            ab_loop(ev, bm, if ply == 0 { (mc.0, mc.1, s[k].1, v, true) } else { mc }, b, depth, d2, ply, alpha, beta, total, s, k + 1, v,
                s[k].1, true, count + 1, r, m1)
        } else {
            ab_loop(ev, bm, mc, b, depth, d2, ply, alpha, beta, total, s, k + 1, cur, best, found_pv, count + 1, r, m1)
        },
    ensures
        ab_loop(ev, bm, m, b, depth, d2, ply, alpha, beta, total, s, k, cur, best, found_pv, count, r, m1),
{
    assert(move_outcome(v, mc));
}

/// A state of the move loop before one of its moves (a trigger for the
/// states that `move_scored` ranges over).
pub open spec fn loop_point(m: SearchModel, cur: i32, found_pv: bool, count: int) -> bool {
    true
}

/// The move `s[j].1` of the node `b` was searched by its move loop, from
/// some state of the loop, and scored `v` (see `move_score_of`).
pub open spec fn move_scored<E: Fn(&Board) -> i32>(
    ev: E,
    root_best: MoveData,
    b: Board,
    depth: u8,
    d2: u8,
    ply: u8,
    alpha: i32,
    beta: i32,
    total: u8,
    s: Seq<(i32, MoveData)>,
    j: int,
    v: i32,
) -> bool {
    exists|m: SearchModel, cur: i32, fp: bool, count: int, mc: SearchModel| #![trigger loop_point(m, cur, fp, count), move_outcome(v, mc)]
    {
        &&& loop_point(m, cur, fp, count)
        &&& move_outcome(v, mc)
        &&& move_score_of(ev, root_best, m, b, depth, d2, ply, alpha, beta, total, s, j, cur, fp, count, v, mc)
    }
}

/// The move loop searches every move: where its result `r` stays below
/// `beta`, each legal move from index `k` on was searched and scored at most
/// `r`, and once a legal move was searched the bound `cur` is at most `r`.
pub proof fn lemma_loop_searches_all<E: Fn(&Board) -> i32>(
    ev: E,
    bm: MoveData,
    m: SearchModel,
    b: Board,
    depth: u8,
    d2: u8,
    ply: u8,
    alpha: i32,
    beta: i32,
    total: u8,
    s: Seq<(i32, MoveData)>,
    k: int,
    cur: i32,
    best: MoveData,
    found_pv: bool,
    count: int,
    r: i32,
    m1: SearchModel,
)
    requires
        0 <= k,
        count >= 0,
        r < beta,
        ab_loop(ev, bm, m, b, depth, d2, ply, alpha, beta, total, s, k, cur, best, found_pv, count, r, m1),
    ensures
        count > 0 ==> cur <= r,
        forall|j: int| k <= j < s.len() && #[trigger] legal_move(&b, s[j].1) ==> exists|v: i32| v <= r && #[trigger] move_scored(ev, bm, b,
            depth, d2, ply, alpha, beta, total, s, j, v),
    decreases s.len() - k,
{
    if k < s.len() {
        let mv = s[k].1;
        if !legal_move(&b, mv) {
            lemma_loop_searches_all(ev, bm, m, b, depth, d2, ply, alpha, beta, total, s, k + 1, cur, best, found_pv, count, r, m1);
            assert forall|j: int| k <= j < s.len() && #[trigger] legal_move(&b, s[j].1) implies exists|v: i32| v <= r && #[trigger] move_scored(
                ev, bm, b, depth, d2, ply, alpha, beta, total, s, j, v) by {
                assert(j != k);
            }
        } else {
            let (v, mc) = choose|v: i32, mc: SearchModel| #![trigger move_outcome(v, mc)] {
                &&& move_outcome(v, mc)
                &&& move_score_of(ev, bm, m, b, depth, d2, ply, alpha, beta, total, s, k, cur, found_pv, count, v, mc)
                &&& if v >= beta {
                    &&& r == beta
                    &&& m1.0 == stored(mc.0, b.zobrist.key.current, d2, beta, mv, NodeType::LowerBound)
                    &&& cutoff_sorter(mc.1, b.white_to_move, mv, ply, d2, m1.1)
                    &&& m1.2 == mc.2 && m1.3 == mc.3 && m1.4 == mc.4
                } else if v > cur {
                    ab_loop(ev, bm, if ply == 0 { (mc.0, mc.1, mv, v, true) } else { mc }, b, depth, d2, ply, alpha, beta, total, s,
                        k + 1, v, mv, true, count + 1, r, m1)
                } else {
                    ab_loop(ev, bm, mc, b, depth, d2, ply, alpha, beta, total, s, k + 1, cur, best, found_pv, count + 1, r, m1)
                }
            };
            assert(v < beta);
            if v > cur {
                lemma_loop_searches_all(ev, bm, if ply == 0 { (mc.0, mc.1, mv, v, true) } else { mc }, b, depth, d2, ply, alpha, beta,
                    total, s, k + 1, v, mv, true, count + 1, r, m1);
            } else {
                lemma_loop_searches_all(ev, bm, mc, b, depth, d2, ply, alpha, beta, total, s, k + 1, cur, best, found_pv, count + 1, r,
                    m1);
            }
            assert(loop_point(m, cur, found_pv, count));
            assert(move_scored(ev, bm, b, depth, d2, ply, alpha, beta, total, s, k, v));
            assert forall|j: int| k <= j < s.len() && #[trigger] legal_move(&b, s[j].1) implies exists|v2: i32| v2 <= r && #[trigger] move_scored(
                ev, bm, b, depth, d2, ply, alpha, beta, total, s, j, v2) by {
                if j == k {
                    assert(v <= r);
                }
            }
        }
    }
}

/// Alpha-beta searches every legal move: where the moves of a node are
/// searched (depth left above 0) and the result `r` stays below `beta`, they
/// are searched in an order `s` of the generated moves, every legal move
/// occurs in it, and each legal move in it scored at most `r`: the result is
/// the best score over all legal moves, not over some of them.
pub proof fn lemma_moves_search_all<E: Fn(&Board) -> i32>(
    ev: E,
    bm: MoveData,
    m: SearchModel,
    b: Board,
    depth: u8,
    d2: u8,
    ply: u8,
    alpha: i32,
    beta: i32,
    total: u8,
    hash: MoveData,
    r: i32,
    m1: SearchModel,
)
    requires
        d2 > 0,
        r < beta,
        ab_moves(ev, bm, m, b, depth, d2, ply, alpha, beta, total, hash, r, m1),
    ensures
        exists|s: Seq<(i32, MoveData)>| #[trigger] move_order(s) && {
            &&& sorted_as(&m.1, b.white_to_move, position_move_list(&b), if ply == 0 && !same_move(bm, spec_null_move()) { bm } else { hash },
                ply as int, s)
            &&& forall|mv: MoveData| #[trigger] position_move_list(&b).contains(mv) ==> exists|j: int| 0 <= j < s.len() && (#[trigger] s[j]).1 == mv
            &&& forall|j: int| 0 <= j < s.len() && #[trigger] legal_move(&b, s[j].1) ==> exists|v: i32| v <= r && #[trigger] move_scored(ev,
                bm, b, depth, d2, ply, alpha, beta, total, s, j, v)
        },
{
    let hm = if ply == 0 && !same_move(bm, spec_null_move()) { bm } else { hash };
    let s = choose|s: Seq<(i32, MoveData)>| #![trigger move_order(s)] {
        &&& move_order(s)
        &&& sorted_as(&m.1, b.white_to_move, position_move_list(&b), hm, ply as int, s)
        &&& ab_loop(ev, bm, m, b, depth, d2, ply, alpha, beta, total, s, 0, alpha, spec_null_move(), false, 0, r, m1)
    };
    lemma_loop_searches_all(ev, bm, m, b, depth, d2, ply, alpha, beta, total, s, 0, alpha, spec_null_move(), false, 0, r, m1);
    assert forall|mv: MoveData| #[trigger] position_move_list(&b).contains(mv) implies exists|j: int| 0 <= j < s.len() && (#[trigger] s[j]).1
        == mv by {
        lemma_sorted_covers(&m.1, b.white_to_move, position_move_list(&b), hm, ply as int, s, mv);
    }
}

/// At the root, alpha-beta searches every legal move: searched to a depth
/// above 0 in a window wider than a null window, a result `r` below `beta`
/// comes from a move loop over an order `s` in which every generated move
/// occurs, and every legal move in it scored at most `r` (see
/// `lemma_moves_search_all`).
pub proof fn lemma_root_searches_all<E: Fn(&Board) -> i32>(
    ev: E,
    bm: MoveData,
    m0: SearchModel,
    b: Board,
    depth: u8,
    alpha: i32,
    beta: i32,
    total: u8,
    r: i32,
    m1: SearchModel,
)
    requires
        depth > 0,
        !null_window(alpha, beta),
        r < beta,
        ab_value(ev, bm, m0, b, depth, 0, alpha, beta, total, r, m1),
    ensures
        exists|s: Seq<(i32, MoveData)>| #[trigger] move_order(s) && {
            &&& forall|mv: MoveData| #[trigger] position_move_list(&b).contains(mv) ==> exists|j: int| 0 <= j < s.len() && (#[trigger] s[j]).1 == mv
            &&& forall|j: int| 0 <= j < s.len() && #[trigger] legal_move(&b, s[j].1) ==> exists|v: i32| v <= r && #[trigger] move_scored(ev,
                bm, b, depth, depth, 0, alpha, beta, total, s, j, v)
        },
{
    let key = b.zobrist.key.current;
    let hit = tt_answers(m0.0, key, depth, alpha, beta);
    let ma = if hit { with_table(m0, m0.0.insert(key, with_age(m0.0[key], 0))) } else { m0 };
    let hash = if hit { m0.0[key].best_move } else { spec_null_move() };
    assert(ab_node(ev, bm, ma, b, depth, depth, 0, alpha, beta, total, hash, r, m1));
    assert(ab_moves(ev, bm, ma, b, depth, depth, 0, alpha, beta, total, hash, r, m1));
    lemma_moves_search_all(ev, bm, ma, b, depth, depth, 0, alpha, beta, total, hash, r, m1);
}

proof fn lemma_score_reduced<E: Fn(&Board) -> i32>(ev: E, bm: MoveData, m: SearchModel, b: Board, depth: u8, d2: u8, ply: u8,
    alpha: i32, beta: i32, total: u8, s: Seq<(i32, MoveData)>, k: int, cur: i32, found_pv: bool, count: int, b1: Board, c1: i32,
    ma: SearchModel, v: i32, mc: SearchModel)
    requires
        count > 3 && d2 > 1 && extension_of(&b, s[k].1, total) == 0 && s[k].1.capture == NO_PIECE,
        b1.is_after_move(&b, s[k].1),
        ({
            let reduction: int = 2 + (if found_pv { 1int } else { 0 }) + (if null_window(alpha, beta) { 1int } else { 0 });
            let child_depth: u8 = if d2 > reduction { (d2 - reduction) as u8 } else { 0 };
            &&& 0 <= search_measure(child_depth, total) < search_measure(depth, total)
            &&& ab_value(ev, bm, m, b1, child_depth, (ply + 1) as u8, (spec_negate(cur) - 1) as i32, spec_negate(cur), total, c1, ma)
        }),
        pvs_score(ev, bm, ma, b, depth, d2, ply, alpha, beta, total, s, k, cur, found_pv, spec_negate(c1), spec_negate(c1) > cur, v, mc),
    ensures
        move_score_of(ev, bm, m, b, depth, d2, ply, alpha, beta, total, s, k, cur, found_pv, count, v, mc),
{
    assert(searched_child(b1, c1, ma));
}

proof fn lemma_score_unreduced<E: Fn(&Board) -> i32>(ev: E, bm: MoveData, m: SearchModel, b: Board, depth: u8, d2: u8, ply: u8,
    alpha: i32, beta: i32, total: u8, s: Seq<(i32, MoveData)>, k: int, cur: i32, found_pv: bool, count: int, v: i32, mc: SearchModel)
    requires
        !(count > 3 && d2 > 1 && extension_of(&b, s[k].1, total) == 0 && s[k].1.capture == NO_PIECE),
        pvs_score(ev, bm, m, b, depth, d2, ply, alpha, beta, total, s, k, cur, found_pv, 0, true, v, mc),
    ensures
        move_score_of(ev, bm, m, b, depth, d2, ply, alpha, beta, total, s, k, cur, found_pv, count, v, mc),
{
}

proof fn lemma_pvs_searched<E: Fn(&Board) -> i32>(ev: E, bm: MoveData, m: SearchModel, b: Board, depth: u8, d2: u8, ply: u8,
    alpha: i32, beta: i32, total: u8, s: Seq<(i32, MoveData)>, k: int, cur: i32, found_pv: bool, v0: i32, needs: bool, b2: Board, c2: i32,
    ma: SearchModel, v: i32, mc: SearchModel)
    requires
        needs && found_pv,
        b2.is_after_move(&b, s[k].1),
        ({
            let ext = extension_of(&b, s[k].1, total);
            let child_depth: u8 = (d2 + ext - 1) as u8;
            &&& 0 <= search_measure(child_depth, (total + ext) as u8) < search_measure(depth, total)
            &&& ab_value(ev, bm, m, b2, child_depth, (ply + 1) as u8, (spec_negate(cur) - 1) as i32, spec_negate(cur), (total + ext) as u8,
                c2, ma)
        }),
        full_score(ev, bm, ma, b, depth, d2, ply, alpha, beta, total, s, k, cur, spec_negate(c2), spec_negate(c2) > cur, v, mc),
    ensures
        pvs_score(ev, bm, m, b, depth, d2, ply, alpha, beta, total, s, k, cur, found_pv, v0, needs, v, mc),
{
    assert(searched_child(b2, c2, ma));
}

proof fn lemma_pvs_skipped<E: Fn(&Board) -> i32>(ev: E, bm: MoveData, m: SearchModel, b: Board, depth: u8, d2: u8, ply: u8,
    alpha: i32, beta: i32, total: u8, s: Seq<(i32, MoveData)>, k: int, cur: i32, found_pv: bool, v0: i32, needs: bool, v: i32,
    mc: SearchModel)
    requires
        !(needs && found_pv),
        full_score(ev, bm, m, b, depth, d2, ply, alpha, beta, total, s, k, cur, v0, needs, v, mc),
    ensures
        pvs_score(ev, bm, m, b, depth, d2, ply, alpha, beta, total, s, k, cur, found_pv, v0, needs, v, mc),
{
}

proof fn lemma_full_searched<E: Fn(&Board) -> i32>(ev: E, bm: MoveData, m: SearchModel, b: Board, depth: u8, d2: u8, ply: u8,
    alpha: i32, beta: i32, total: u8, s: Seq<(i32, MoveData)>, k: int, cur: i32, v0: i32, b3: Board, c3: i32, mc: SearchModel)
    requires
        b3.is_after_move(&b, s[k].1),
        ({
            let ext = extension_of(&b, s[k].1, total);
            let child_depth: u8 = (d2 + ext - 1) as u8;
            &&& 0 <= search_measure(child_depth, (total + ext) as u8) < search_measure(depth, total)
            &&& ab_value(ev, bm, m, b3, child_depth, (ply + 1) as u8, spec_negate(beta), spec_negate(cur), (total + ext) as u8, c3, mc)
        }),
    ensures
        full_score(ev, bm, m, b, depth, d2, ply, alpha, beta, total, s, k, cur, v0, true, spec_negate(c3), mc),
{
    assert(searched_child(b3, c3, mc));
}

proof fn lemma_full_skipped<E: Fn(&Board) -> i32>(ev: E, bm: MoveData, m: SearchModel, b: Board, depth: u8, d2: u8, ply: u8,
    alpha: i32, beta: i32, total: u8, s: Seq<(i32, MoveData)>, k: int, cur: i32, v0: i32)
    ensures
        full_score(ev, bm, m, b, depth, d2, ply, alpha, beta, total, s, k, cur, v0, false, v0, m),
{
}

/// The state of a search: the transposition table and move ordering it
/// learns into, its clock and time limit, the best move found so far and
/// its counters.
pub struct Search {
    pub transposition_table: TranspositionTable,
    pub move_sorter: MoveSorter,
    pub think_timer: std::time::Instant,
    /// Microseconds the search may take; 0 is no limit.
    pub time_limit_us: u128,
    pub search_cancelled: bool,
    pub searched_one_move: bool,
    pub best_move: MoveData,
    pub best_move_this_iteration: MoveData,
    pub evaluation: i32,
    pub evaluation_this_iteration: i32,
    pub sel_depth: u8,
    pub positions_searched: u128,
    pub quiescence_searched: u128,
    /// The half-width of the aspiration window, kept from depth to depth.
    pub window: i32,
}

impl Search {
    /// The table has no entry that is too old, and the history scores stay
    /// below the bound that move scoring needs.
    pub open spec fn wf(&self) -> bool {
        &&& self.transposition_table.wf()
        &&& history_bounded(&self.move_sorter)
    }

    /// What a search call keeps: well-formedness, the clock and the limit,
    /// the best move and evaluation of the turn and the window; and a
    /// cancellation, once made under a limit, stays.
    pub open spec fn kept_by(&self, before: &Search) -> bool {
        &&& self.clock_kept_by(before)
        &&& self.time_limit_us == 0 ==> !self.search_cancelled
        &&& self.best_move == before.best_move
        &&& self.evaluation == before.evaluation
        &&& self.window == before.window
    }

    /// Well-formedness, the clock and the limit are kept, and a cancellation,
    /// once made under a limit, stays.
    pub open spec fn clock_kept_by(&self, before: &Search) -> bool {
        &&& self.wf()
        &&& self.think_timer == before.think_timer
        &&& self.time_limit_us == before.time_limit_us
        &&& before.search_cancelled && before.time_limit_us > 0 ==> self.search_cancelled
    }

    /// A search with an empty table, no limit and no move found yet.
    pub fn new() -> (r: Self)
        ensures
            r.wf(),
            r.transposition_table.table@ == Map::<u64, TranspositionData>::empty(),
            r.time_limit_us == 0,
            !r.search_cancelled,
            r.best_move == spec_null_move(),
            r.evaluation == 0,
            r.window == 40,
    {
        let sorter = MoveSorter::new();
        Search {
            transposition_table: TranspositionTable::empty(),
            move_sorter: sorter,
            think_timer: now(),
            time_limit_us: 0,
            search_cancelled: false,
            searched_one_move: false,
            best_move: null_move(),
            best_move_this_iteration: null_move(),
            evaluation: 0,
            evaluation_this_iteration: 0,
            sel_depth: 0,
            positions_searched: 0,
            quiescence_searched: 0,
            window: 40,
        }
    }

    /// Starts a turn: the limit is set and the clock started, the best move
    /// and the counters are cleared, the move ordering is forgotten and the
    /// aspiration window goes back to its first width.
    pub fn begin(&mut self, time_limit_us: u128)
        requires
            old(self).wf(),
        ensures
            final(self).wf(),
            final(self).time_limit_us == time_limit_us,
            !final(self).search_cancelled,
            final(self).best_move == spec_null_move(),
            final(self).positions_searched == 0,
            final(self).quiescence_searched == 0,
            final(self).window == 40,
            final(self).evaluation == old(self).evaluation,
            final(self).transposition_table == old(self).transposition_table,
    {
        self.time_limit_us = time_limit_us;
        self.search_cancelled = false;
        self.best_move = null_move();
        self.positions_searched = 0;
        self.quiescence_searched = 0;
        self.move_sorter.clear();
        self.window = 40;
        self.think_timer = now();
    }

    /// One iteration of the deepening: searches the root to `depth` in an
    /// aspiration window around the last evaluation, widening it fourfold
    /// until the score falls inside (the widening stops where the width would
    /// leave `i32`). The iteration's best move and evaluation are taken over
    /// unless the search was cancelled before any root move was searched.
    /// The board is left in its position.
    pub fn search_depth<E: Fn(&Board) -> i32>(&mut self, board: &mut Board, evaluate: &E, depth: u8) -> (r: Option<i32>)
        requires
            old(self).wf(),
            old(board).consistent(),
            old(board).board_state.current.fifty_move_counter < 255,
            old(board).moves@.len() + 400 < usize::MAX,
            depth + MAX_SEARCH_EXTENSIONS <= 255,
            old(self).window > 0,
            forall|b: &Board| #[trigger] call_requires(*evaluate, (b,)),
        ensures
            final(self).clock_kept_by(old(self)),
            final(self).window > 0,
            final(board).consistent(),
            final(board).same_position(old(board)),
            !final(self).search_cancelled || final(self).searched_one_move ==> {
                &&& final(self).best_move == final(self).best_move_this_iteration
                &&& final(self).evaluation == final(self).evaluation_this_iteration
            },
            final(self).searched_one_move ==> legal_move(old(board), final(self).best_move),
            !(!final(self).search_cancelled || final(self).searched_one_move) ==> {
                &&& final(self).best_move == old(self).best_move
                &&& final(self).evaluation == old(self).evaluation
            },
            r is None ==> final(self).window > i32::MAX / 4,
            r matches Some(v) ==> (!final(self).search_cancelled && depth > 0 && old(board).has_legal_move() ==> {
                &&& final(self).searched_one_move
                &&& legal_move(old(board), final(self).best_move)
                &&& final(self).evaluation == v
            }),
            r matches Some(v) ==> (!final(self).search_cancelled ==> exists|bb: Board, m0: SearchModel, a: i32, b: i32| #[trigger]
                aspiration_try(bb, m0, a, b) && {
                &&& bb.same_position(old(board))
                &&& a < v < b
                &&& ab_value(*evaluate, old(self).best_move, m0, bb, depth, 0, a, b, 0, v, model(final(self)))
            }),
    {
        self.searched_one_move = false;
        self.best_move_this_iteration = null_move();
        self.evaluation_this_iteration = 0;
        self.sel_depth = 0;
        let ghost b0 = *old(board);
        let ghost s0 = *old(self);
        let ghost best0 = self.best_move;
        let ghost eval0 = self.evaluation;
        proof {
            board.lemma_same_position_refl();
        }
        let mut settled: Option<i32> = None;
        loop
            invariant_except_break
                settled is None,
            invariant
                settled matches Some(v) ==> (!self.search_cancelled && depth > 0 && b0.has_legal_move() ==> {
                    &&& self.searched_one_move
                    &&& self.evaluation_this_iteration == v
                }),
                settled matches Some(v) ==> (!self.search_cancelled ==> exists|bb: Board, m0: SearchModel, a: i32, b: i32| #[trigger]
                    aspiration_try(bb, m0, a, b) && {
                    &&& bb.same_position(&b0)
                    &&& a < v < b
                    &&& ab_value(*evaluate, s0.best_move, m0, bb, depth, 0, a, b, 0, v, model(self))
                }),
                b0 == *old(board),
                s0 == *old(self),
                b0.consistent(),
                board.consistent(),
                board.same_position(&b0),
                b0.board_state.current.fifty_move_counter < 255,
                b0.moves@.len() + 400 < usize::MAX,
                depth + MAX_SEARCH_EXTENSIONS <= 255,
                self.clock_kept_by(&s0),
                self.window > 0,
                self.best_move == best0,
                self.evaluation == eval0,
                self.searched_one_move ==> legal_move(&b0, self.best_move_this_iteration),
                best0 == s0.best_move,
                eval0 == s0.evaluation,
                forall|b: &Board| #[trigger] call_requires(*evaluate, (b,)),
            ensures
                settled is None ==> self.window > i32::MAX / 4,
            decreases i32::MAX - self.window,
        {
            let alpha = add_scores(self.evaluation, negate(self.window));
            let beta = add_scores(self.evaluation, self.window);
            let ghost before = *board;
            let ghost s_before = *self;
            let evaluation = self.alpha_beta_search(board, evaluate, depth, 0, alpha, beta, 0);
            proof {
                board.lemma_same_position_trans2(&before, &b0);
                lemma_same_position_consistent(&b0, board);
            }
            if evaluation > alpha && evaluation < beta {
                settled = Some(evaluation);
                proof {
                    assert(aspiration_try(before, model(&s_before), alpha, beta));
                }
                break;
            }
            if self.window > i32::MAX / 4 {
                break;
            }
            self.window = self.window * 4;
        }
        if !self.search_cancelled || self.searched_one_move {
            self.best_move = self.best_move_this_iteration;
            self.evaluation = self.evaluation_this_iteration;
        }
        settled
    }

    /// Looks at the clock: the search is cancelled once the limit has passed
    /// (and stays so), unless there is no limit.
    pub fn should_cancel_search(&mut self) -> (r: bool)
        ensures
            r == final(self).search_cancelled,
            *final(self) == (Search { search_cancelled: r, ..*old(self) }),
            old(self).search_cancelled && old(self).time_limit_us > 0 ==> r,
            old(self).time_limit_us == 0 ==> !r,
    {
        let elapsed = elapsed_micros(&self.think_timer);
        self.search_cancelled = (self.search_cancelled || elapsed >= self.time_limit_us) && self.time_limit_us > 0;
        self.search_cancelled
    }

    /// The quiescence search: stands pat on the evaluation, then searches the
    /// captures best first (skipping, when not in check, those that cannot
    /// lift the score to `alpha`) until one reaches `beta`. The board is left
    /// in its position, and the table and the move ordering are neither read
    /// for cutoffs nor changed. Unless the search was cancelled, the result is
    /// a `quiescence_value` of the board: with `e` its evaluation, `beta` when
    /// `e >= beta`, `e` itself when there is no capture, and otherwise the
    /// fail-hard value of the captures from `max(alpha, e)` on.
    pub fn quiescence_search<E: Fn(&Board) -> i32>(
        &mut self,
        board: &mut Board,
        evaluate: &E,
        alpha: i32,
        beta: i32,
        is_root: bool,
    ) -> (r: i32)
        requires
            old(self).wf(),
            old(board).consistent(),
            old(board).board_state.current.fifty_move_counter < 255,
            old(board).moves@.len() + quiet_measure(old(board)) + 1 < usize::MAX,
            forall|b: &Board| #[trigger] call_requires(*evaluate, (b,)),
        ensures
            final(self).kept_by(old(self)),
            final(self).transposition_table == old(self).transposition_table,
            final(self).move_sorter == old(self).move_sorter,
            final(self).best_move_this_iteration == old(self).best_move_this_iteration,
            final(self).evaluation_this_iteration == old(self).evaluation_this_iteration,
            final(self).searched_one_move == old(self).searched_one_move,
            final(board).consistent(),
            final(board).same_position(old(board)),
            !final(self).search_cancelled ==> quiescence_value(*evaluate, old(self).move_sorter, *old(board), alpha, beta, r),
        decreases quiet_measure(old(board)),
    {
        let ghost b0 = *old(board);
        let ghost s0 = *old(self);
        if self.should_cancel_search() {
            proof {
                board.lemma_same_position_refl();
            }
            return 0;
        }
        if is_root {
            self.positions_searched = self.positions_searched.wrapping_sub(1);
        }
        self.quiescence_searched = self.quiescence_searched.wrapping_add(1);
        let evaluation = evaluate(&*board);
        let ghost e = evaluation;
        let ghost a_in = alpha;
        proof {
            assert(call_ensures(*evaluate, (&b0,), e));
        }
        if evaluation >= beta {
            proof {
                board.lemma_same_position_refl();
            }
            return beta;
        }
        let mut cur_alpha = alpha;
        if evaluation > cur_alpha {
            cur_alpha = evaluation;
        }
        let white = board.white_to_move;
        proof {
            lemma_consistent_movable(board, true);
        }
        let moves = board.get_pseudo_legal_moves_for_color(white, true);
        proof {
            board.lemma_wf_same_but_caches(&b0);
            board.lemma_same_position_of_caches(&b0);
            lemma_same_position_consistent(&b0, board);
            assert(moves@ == capture_moves(&b0));
        }
        if moves.len() == 0 {
            return evaluation;
        }
        proof {
            assert forall|i: int| 0 <= i < moves@.len() && (#[trigger] moves@[i]).capture == NO_PIECE implies moves@[i].from < 64
                && moves@[i].to < 64 by {
                assert(moves@.contains(moves@[i]));
                lemma_consistent_moves_fit(&b0, true, moves@[i]);
            }
        }
        let sorted = self.move_sorter.sort_moves(white, moves, null_move(), usize::MAX);
        let ghost mapped = scored_moves(&self.move_sorter, white, moves@, spec_null_move(), usize::MAX as int);
        let ghost sorter = self.move_sorter;
        let ghost alpha0 = cur_alpha;
        let mut i: usize = 0;
        while i < sorted.len()
            invariant
                i <= sorted@.len(),
                b0 == *old(board),
                s0 == *old(self),
                b0.consistent(),
                board.consistent(),
                board.same_position(&b0),
                b0.board_state.current.fifty_move_counter < 255,
                b0.moves@.len() + quiet_measure(&b0) + 1 < usize::MAX,
                white == b0.white_to_move,
                self.kept_by(&s0),
                self.transposition_table == s0.transposition_table,
                self.move_sorter == s0.move_sorter,
                sorter == s0.move_sorter,
                self.best_move_this_iteration == s0.best_move_this_iteration,
                self.evaluation_this_iteration == s0.evaluation_this_iteration,
                self.searched_one_move == s0.searched_one_move,
                forall|b: &Board| #[trigger] call_requires(*evaluate, (b,)),
                call_ensures(*evaluate, (&b0,), e),
                e == evaluation,
                e < beta,
                alpha0 == max_i32(a_in, e),
                a_in == alpha,
                moves@ == capture_moves(&b0),
                sorted_as(&sorter, white, moves@, spec_null_move(), usize::MAX as int, sorted@),
                mapped == scored_moves(&sorter, white, moves@, spec_null_move(), usize::MAX as int),
                sorted@.to_multiset() == mapped.to_multiset(),
                mapped.len() == moves@.len(),
                forall|j: int| 0 <= j < mapped.len() ==> (#[trigger] mapped[j]).1 == moves@[j],
                forall|m: MoveData| #[trigger] moves@.contains(m) <==> color_move(b0.view(), b0.occupied_spec(),
                    last_move_of(b0.moves@), b0.board_state.current.castling_rights, b0.white_to_move, true, m),
                !self.search_cancelled ==> forall|r: i32| #[trigger] capture_loop(*evaluate, sorter, b0, e, cur_alpha, beta, sorted@,
                    i as int, r) ==> capture_loop(*evaluate, sorter, b0, e, alpha0, beta, sorted@, 0, r),
            decreases sorted@.len() - i,
        {
            let m = sorted[i].1;
            proof {
                lemma_sorted_member(sorted@, mapped, moves@, i as int);
                lemma_capture_move_kind(&b0, m);
            }
            let ghost before_check = *board;
            let in_check = board.king_in_check(white);
            proof {
                board.lemma_wf_same_but_caches(&before_check);
                board.lemma_same_position_of_caches(&before_check);
                board.lemma_same_position_trans2(&before_check, &b0);
                lemma_same_position_consistent(&b0, board);
                assert(in_check == crate::search::in_check(&b0));
            }
            if !in_check {
                let threshold = QUEEN_WORTH + if promotable_contains(m.flag) { QUEEN_WORTH - PAWN_WORTH } else { 0 };
                if evaluation < add_scores(cur_alpha, -threshold) {
                    proof {
                        assert(threshold == delta_margin(m));
                        assert forall|r: i32| #[trigger] capture_loop(*evaluate, sorter, b0, e, cur_alpha, beta, sorted@, i + 1, r)
                            implies capture_loop(*evaluate, sorter, b0, e, cur_alpha, beta, sorted@, i as int, r) by {
                            lemma_capture_skip(*evaluate, sorter, b0, e, cur_alpha, beta, sorted@, i as int, r);
                        }
                    }
                    i = i + 1;
                    continue;
                }
            }
            proof {
                assert(!(!crate::search::in_check(&b0) && e < (cur_alpha - delta_margin(m)) as i32));
            }
            let ghost before = *board;
            if board.make_move(m) {
                proof {
                    lemma_move_keeps_consistency(&before, true, m, board);
                    lemma_pieces_after_move(b0.view(), m);
                    assert(last_move_of(board.moves@) == m);
                    assert(!king_attacked(apply_move_view(b0.view(), m), occupancy_for(apply_move_view(b0.view(), m)),
                        b0.white_to_move));
                    assert(quiet_measure(board) < quiet_measure(&b0));
                }
                let ghost before_child = *board;
                let child = self.quiescence_search(board, evaluate, negate(beta), negate(cur_alpha), false);
                let ghost after_child = *board;
                let evaluation = negate(child);
                proof {
                    crate::board::lemma_apply_undo_fits(before.view(), m);
                    after_child.lemma_same_position_trans2(&before_child, &before_child);
                    lemma_after_move_transfer(&before, &b0, m, &before_child);
                }
                let ghost before_undo = *board;
                board.undo_last_move();
                proof {
                    crate::board::lemma_make_return_undo_restores(&before, m, &before_child, &before_undo, board);
                    board.lemma_same_position_trans2(&before, &b0);
                    lemma_same_position_consistent(&b0, board);
                }
                if evaluation >= beta {
                    proof {
                        assert(!self.search_cancelled ==> quiescence_value(*evaluate, old(self).move_sorter, *old(board), alpha,
                            beta, beta)) by {
                            if !self.search_cancelled {
                                assert(quiescence_value(*evaluate, sorter, before_child, spec_negate(beta), spec_negate(cur_alpha), child));
                                assert(sorted@[i as int].1 == m);
                                assert(before_child.is_after_move(&b0, m));
                                assert(quiet_measure(&before_child) < quiet_measure(&b0));
                                assert(spec_negate(child) >= beta);
                                assert(!king_attacked(apply_move_view(b0.view(), m), occupancy_for(apply_move_view(b0.view(), m)),
                                    b0.white_to_move));
                                assert(i < sorted@.len());
                                assert(exists|b2: Board, c: i32| {
                                    &&& #[trigger] b2.is_after_move(&b0, m)
                                    &&& quiet_measure(&b2) < quiet_measure(&b0)
                                    &&& #[trigger] quiescence_value(*evaluate, sorter, b2, spec_negate(beta), spec_negate(cur_alpha), c)
                                    &&& if spec_negate(c) >= beta {
                                        beta == beta
                                    } else {
                                        capture_loop(*evaluate, sorter, b0, e, max_i32(cur_alpha, spec_negate(c)), beta, sorted@, i + 1, beta)
                                    }
                                });
                                assert(!(!crate::search::in_check(&b0) && e < (cur_alpha - delta_margin(m)) as i32));
                                lemma_capture_step(*evaluate, sorter, b0, e, cur_alpha, beta, sorted@, i as int, before_child, child, beta);
                                assert(capture_loop(*evaluate, sorter, b0, e, alpha0, beta, sorted@, 0, beta));
                                assert(sorted_as(&sorter, b0.white_to_move, capture_moves(&b0), spec_null_move(), usize::MAX as int,
                                    sorted@));
                                assert(capture_moves(&b0).len() > 0);
                                lemma_quiescence_value_intro(*evaluate, sorter, b0, a_in, beta, e, sorted@, beta);
                                assert(quiescence_value(*evaluate, old(self).move_sorter, *old(board), a_in, beta, beta));
                            }
                        }
                    }
                    return beta;
                }
                let ghost old_alpha = cur_alpha;
                if evaluation > cur_alpha {
                    cur_alpha = evaluation;
                }
                proof {
                    if !self.search_cancelled {
                        assert(quiescence_value(*evaluate, sorter, before_child, spec_negate(beta), spec_negate(old_alpha), child));
                        assert(cur_alpha == max_i32(old_alpha, spec_negate(child)));
                        assert forall|r: i32| #[trigger] capture_loop(*evaluate, sorter, b0, e, cur_alpha, beta, sorted@, i + 1, r)
                            implies capture_loop(*evaluate, sorter, b0, e, old_alpha, beta, sorted@, i as int, r) by {
                            lemma_capture_step(*evaluate, sorter, b0, e, old_alpha, beta, sorted@, i as int, before_child, child, r);
                        }
                    }
                }
            } else {
                proof {
                    board.lemma_same_position_trans2(&before, &b0);
                    lemma_same_position_consistent(&b0, board);
                    assert forall|r: i32| #[trigger] capture_loop(*evaluate, sorter, b0, e, cur_alpha, beta, sorted@, i + 1, r)
                        implies capture_loop(*evaluate, sorter, b0, e, cur_alpha, beta, sorted@, i as int, r) by {
                        lemma_capture_skip(*evaluate, sorter, b0, e, cur_alpha, beta, sorted@, i as int, r);
                    }
                }
            }
            i = i + 1;
        }
        proof {
            if !self.search_cancelled {
                assert(capture_loop(*evaluate, sorter, b0, e, cur_alpha, beta, sorted@, i as int, cur_alpha));
                assert(capture_loop(*evaluate, sorter, b0, e, alpha0, beta, sorted@, 0, cur_alpha));
                assert(sorted_as(&sorter, b0.white_to_move, capture_moves(&b0), spec_null_move(), usize::MAX as int, sorted@));
                lemma_quiescence_value_intro(*evaluate, sorter, b0, a_in, beta, e, sorted@, cur_alpha);
            }
        }
        cur_alpha
    }

    /// The alpha-beta search of `depth` plies at `ply` plies from the root,
    /// with window `(alpha, beta)`: mate-distance pruning and a draw check
    /// below the root, transposition-table cutoffs below the root, internal
    /// iterative reductions, reverse futility pruning, null-move pruning and
    /// razoring in null windows out of check, then the moves best first with
    /// check and pawn extensions, late-move reductions and principal
    /// variation search, and the quiescence search at depth 0. The board is
    /// left in its position. Below the root a drawn position scores 0. When
    /// the side to move has no legal move and the search reaches the moves
    /// (uncancelled, depth above 0, and below the root: no draw, an open
    /// mate window and no table cutoff), a mate scores
    /// `-(CHECKMATE_EVAL - ply)` and a stalemate, in a window wider than a
    /// null window, 0.
    #[verifier::rlimit(100)]
    #[verifier::spinoff_prover]
    pub fn alpha_beta_search<E: Fn(&Board) -> i32>(
        &mut self,
        board: &mut Board,
        evaluate: &E,
        depth: u8,
        ply: u8,
        alpha: i32,
        beta: i32,
        total_extensions: u8,
    ) -> (r: i32)
        requires
            old(self).wf(),
            old(board).consistent(),
            ply == 0 ==> old(board).board_state.current.fifty_move_counter < 255,
            old(board).moves@.len() + 400 - ply < usize::MAX,
            total_extensions <= MAX_SEARCH_EXTENSIONS,
            ply + depth + MAX_SEARCH_EXTENSIONS - total_extensions <= 255,
            forall|b: &Board| #[trigger] call_requires(*evaluate, (b,)),
        ensures
            final(self).kept_by(old(self)),
            final(board).consistent(),
            final(board).same_position(old(board)),
            !final(self).search_cancelled ==> ab_value(*evaluate, old(self).best_move, model(old(self)), *old(board), depth, ply, alpha,
                beta, total_extensions, r, model(final(self))),
            ply > 0 && old(board).draw_spec() ==> r == 0,
            ply > 0 ==> {
                &&& final(self).best_move_this_iteration == old(self).best_move_this_iteration
                &&& final(self).evaluation_this_iteration == old(self).evaluation_this_iteration
                &&& final(self).searched_one_move == old(self).searched_one_move
            },
            ply == 0 ==> root_kept_or_legal(final(self), old(self), old(board)),
            ply == 0 && !final(self).search_cancelled && depth > 0 && alpha < r < beta && old(board).has_legal_move() ==> {
                &&& final(self).searched_one_move
                &&& legal_move(old(board), final(self).best_move_this_iteration)
                &&& final(self).evaluation_this_iteration == r
            },
            !final(self).search_cancelled && depth > 0 && !old(board).has_legal_move() && (ply == 0 || (
                !old(board).draw_spec() && mate_window_open(alpha, beta, ply) && !tt_answers(
                    old(self).transposition_table.table@,
                    old(board).zobrist.key.current,
                    depth,
                    alpha,
                    beta,
                ))) ==> {
                &&& in_check(old(board)) ==> r == -(CHECKMATE_EVAL - ply)
                &&& !in_check(old(board)) && alpha + 1 < beta ==> r == 0
            },
        decreases depth + MAX_SEARCH_EXTENSIONS - total_extensions, 2int,
    {
        let ghost b0 = *old(board);
        let ghost s0 = *old(self);
        let ghost ev = *evaluate;
        let ghost bm = s0.best_move;
        let ghost m0 = model(&s0);
        if self.should_cancel_search() {
            proof {
                board.lemma_same_position_refl();
            }
            return 0;
        }
        if ply > 0 {
            if ply > self.sel_depth {
                self.sel_depth = ply;
            }
            self.positions_searched = self.positions_searched.wrapping_add(1);
            if board.is_draw() {
                proof {
                    board.lemma_same_position_refl();
                    lemma_value_early(ev, bm, m0, b0, depth, ply, alpha, beta, total_extensions, 0, m0);
                }
                return 0;
            }
            let mate_value = CHECKMATE_EVAL - ply as i32;
            let a = if alpha >= -mate_value { alpha } else { -mate_value };
            let b = if beta <= mate_value - 1 { beta } else { mate_value - 1 };
            if a >= b {
                proof {
                    board.lemma_same_position_refl();
                    lemma_value_early(ev, bm, m0, b0, depth, ply, alpha, beta, total_extensions, a, m0);
                }
                return a;
            }
        }
        let ghost key = b0.zobrist.key.current;
        let ghost hit = tt_answers(m0.0, key, depth, alpha, beta);
        let tt_entry = self.transposition_table.lookup(board.zobrist.key.current, depth, alpha, beta);
        let mut hash_move = null_move();
        let mut has_hash_move = false;
        match tt_entry {
            Some(data) => {
                if ply > 0 {
                    proof {
                        board.lemma_same_position_refl();
                        lemma_value_early(ev, bm, m0, b0, depth, ply, alpha, beta, total_extensions, data.evaluation, model(self));
                    }
                    return data.evaluation;
                }
                hash_move = data.best_move;
                has_hash_move = true;
            },
            None => {},
        }
        let ghost m_node = model(self);
        let ghost hash = hash_move;
        proof {
            assert(has_hash_move == hit);
            assert(m_node == if hit { with_table(m0, m0.0.insert(key, with_age(m0.0[key], 0))) } else { m0 });
            assert(hash == if hit { m0.0[key].best_move } else { spec_null_move() });
        }
        let mut depth_left = depth;
        if ply > 0 && depth_left > 1 && !has_hash_move {
            depth_left = depth_left - 1;
        }
        let ghost d1 = depth_left;
        let not_pv = if beta == i32::MIN { alpha == i32::MAX } else { alpha == beta - 1 };
        let white = board.white_to_move;
        let ghost before_check = *board;
        let in_check = board.king_in_check(white);
        proof {
            board.lemma_wf_same_but_caches(&before_check);
            board.lemma_same_position_of_caches(&before_check);
            lemma_same_position_consistent(&b0, board);
            assert(in_check == crate::search::in_check(&b0));
        }
        let alpha_mate = alpha != i32::MIN && evaluation_is_mate(alpha);
        let beta_mate = beta != i32::MIN && evaluation_is_mate(beta);
        let ghost mut m_moves = m_node;
        let ghost mut chain_ok = false;
        if not_pv && depth_left > 0 && !in_check && !alpha_mate && !beta_mate {
            let ghost be = *board;
            let static_eval = evaluate(&*board);
            let ghost e = static_eval;
            proof {
                assert(call_ensures(ev, (&be,), e));
                assert(be.same_position(&b0));
            }
            if depth_left < 8 {
                let d: i32 = depth_left as i32 - 1;
                assert(0 <= d * d <= 49) by (nonlinear_arith)
                    requires
                        0 <= d <= 6,
                ;
                let margin: i32 = 55 + 50 * (d * d);
                if add_scores(static_eval, -margin) >= beta {
                    proof {
                        assert(futility_cut(d1, e, beta));
                        lemma_pruning_cut(ev, bm, m_node, b0, depth, d1, ply, alpha, beta, total_extensions, hash, e);
                        lemma_node_pruning(ev, bm, m_node, b0, depth, d1, ply, alpha, beta, total_extensions, hash, be, e, beta, m_node);
                        lemma_value_node(ev, bm, m0, b0, depth, ply, alpha, beta, total_extensions, beta, m_node);
                    }
                    return beta;
                }
            }
            proof {
                assert(!futility_cut(d1, e, beta));
            }
            let side: usize = if white { 1 } else { 0 };
            let ghost mut null_searched = false;
            let ghost mut bn = b0;
            let ghost mut cn: i32 = 0;
            let ghost mut mn = m_node;
            if depth_left > 1 && static_eval >= beta && board.total_material_without_pawns[side] > 0
                && board.get_last_move().capture == NO_PIECE as u8 {
                let ghost before_null = *board;
                proof {
                    before_null.lemma_occupancy();
                    crate::board::lemma_king_attacked_congruent(before_null.view(), before_null.occupied_spec(),
                        occupancy_for(before_null.view()), white);
                }
                if board.try_null_move() {
                    proof {
                        crate::consistency::lemma_null_move_keeps_consistency(&before_null, board);
                        assert(null_move_tried(&b0, d1, e, beta));
                    }
                    let reduction: u8 = 3 + (depth_left - 2) / 3;
                    let child_depth: u8 = if depth_left > reduction { depth_left - reduction } else { 0 };
                    let ghost after_null = *board;
                    proof {
                        assert(after_pass(&after_null, &b0));
                    }
                    let child = self.alpha_beta_search(board, evaluate, child_depth, ply + 1, negate(beta),
                        add_scores(negate(beta), 1), total_extensions);
                    proof {
                        null_searched = true;
                        bn = after_null;
                        cn = child;
                        mn = model(self);
                    }
                    let evaluation = negate(child);
                    let ghost before_undo = *board;
                    board.undo_null_move();
                    proof {
                        lemma_null_return_restores(&before_null, &after_null, &before_undo, board);
                        board.lemma_same_position_trans2(&before_null, &b0);
                        lemma_same_position_consistent(&b0, board);
                    }
                    if evaluation >= beta {
                        proof {
                            if !self.search_cancelled {
                                lemma_pruning_null(ev, bm, m_node, b0, depth, d1, ply, alpha, beta, total_extensions, hash, e, bn, cn, mn,
                                    evaluation, mn);
                                lemma_node_pruning(ev, bm, m_node, b0, depth, d1, ply, alpha, beta, total_extensions, hash, be, e,
                                    evaluation, mn);
                                lemma_value_node(ev, bm, m0, b0, depth, ply, alpha, beta, total_extensions, evaluation, mn);
                            }
                        }
                        return evaluation;
                    }
                } else {
                    proof {
                        assert(!null_move_tried(&b0, d1, e, beta));
                    }
                }
            } else {
                proof {
                    assert(!null_move_tried(&b0, d1, e, beta));
                }
            }
            if depth_left < 4 {
                let d: i32 = depth_left as i32 - 1;
                if add_scores(static_eval, 300 + 150 * d) < alpha {
                    depth_left = depth_left - 1;
                }
            }
            proof {
                m_moves = model(self);
                assert(depth_left == if d1 < 4 && ((e + (300 + 150 * (d1 - 1))) as i32) < alpha { (d1 - 1) as u8 } else { d1 });
                if !self.search_cancelled {
                    assert forall|r: i32, m1: SearchModel| #[trigger] ab_moves(ev, bm, m_moves, b0, depth, depth_left, ply, alpha, beta,
                        total_extensions, hash, r, m1) implies ab_value(ev, bm, m0, b0, depth, ply, alpha, beta, total_extensions, r, m1) by {
                        lemma_razor(ev, bm, m_moves, b0, depth, d1, ply, alpha, beta, total_extensions, hash, e, r, m1);
                        if null_searched {
                            assert(spec_negate(cn) < beta);
                            lemma_pruning_null(ev, bm, m_node, b0, depth, d1, ply, alpha, beta, total_extensions, hash, e, bn, cn, mn, r,
                                m1);
                        } else {
                            lemma_pruning_razor(ev, bm, m_node, b0, depth, d1, ply, alpha, beta, total_extensions, hash, e, r, m1);
                        }
                        lemma_node_pruning(ev, bm, m_node, b0, depth, d1, ply, alpha, beta, total_extensions, hash, be, e, r, m1);
                        lemma_value_node(ev, bm, m0, b0, depth, ply, alpha, beta, total_extensions, r, m1);
                    }
                    chain_ok = true;
                }
            }
        } else {
            proof {
                assert forall|r: i32, m1: SearchModel| #[trigger] ab_moves(ev, bm, m_moves, b0, depth, depth_left, ply, alpha, beta,
                    total_extensions, hash, r, m1) implies ab_value(ev, bm, m0, b0, depth, ply, alpha, beta, total_extensions, r, m1) by {
                    lemma_node_moves(ev, bm, m_node, b0, depth, d1, ply, alpha, beta, total_extensions, hash, r, m1);
                    lemma_value_node(ev, bm, m0, b0, depth, ply, alpha, beta, total_extensions, r, m1);
                }
                chain_ok = true;
            }
        }
        let ghost d2 = depth_left;
        proof {
            assert(m_moves == model(self));
            assert(chain_ok || self.search_cancelled);
        }
        if depth_left == 0 {
            proof {
                lemma_pieces_bound(board.view(), 0);
            }
            let ghost bq = *board;
            let q = self.quiescence_search(board, evaluate, alpha, beta, true);
            proof {
                if !self.search_cancelled {
                    lemma_moves_quiet(ev, bm, m_moves, b0, depth, ply, alpha, beta, total_extensions, hash, bq, q);
                    assert(model(self) == m_moves);
                }
            }
            return q;
        }
        let ghost before_moves = *board;
        let ghost s_before = *self;
        proof {
            board.lemma_same_position_trans2(&before_moves, &b0);
            assert(before_moves.same_position(&b0));
        }
        let r = self.search_moves(board, evaluate, depth, depth_left, ply, alpha, beta, total_extensions, hash_move, not_pv, in_check,
            Ghost(b0));
        proof {
            board.lemma_same_position_trans2(&before_moves, &b0);
            if !self.search_cancelled {
                assert(!s_before.search_cancelled);
                assert(ab_moves(ev, bm, m_moves, b0, depth, d2, ply, alpha, beta, total_extensions, hash, r, model(self)));
            }
        }
        r
    }

    /// The move loop of a node searched to `d2 > 0` plies: the moves of `b0`
    /// in the sorter's order (the last iteration's best move first at the
    /// root, else `hash_move`), each searched by `search_move`, fail-hard
    /// within `(alpha, beta)`; a cutoff stores a lower bound and updates the
    /// move ordering, the end stores an exact entry for the best move. The
    /// result is as `ab_moves` gives it unless the search was cancelled.
    #[verifier::rlimit(100)]
    #[verifier::spinoff_prover]
    fn search_moves<E: Fn(&Board) -> i32>(
        &mut self,
        board: &mut Board,
        evaluate: &E,
        depth: u8,
        depth_left: u8,
        ply: u8,
        alpha: i32,
        beta: i32,
        total_extensions: u8,
        hash_move: MoveData,
        not_pv: bool,
        in_check: bool,
        Ghost(b0): Ghost<Board>,
    ) -> (r: i32)
        requires
            old(self).wf(),
            old(self).time_limit_us == 0 ==> !old(self).search_cancelled,
            old(board).consistent(),
            b0.consistent(),
            old(board).same_position(&b0),
            b0.board_state.current.fifty_move_counter < 255,
            b0.moves@.len() + 400 - ply < usize::MAX,
            total_extensions <= MAX_SEARCH_EXTENSIONS,
            1 <= depth_left <= depth,
            ply + depth_left + MAX_SEARCH_EXTENSIONS - total_extensions <= 255,
            not_pv == null_window(alpha, beta),
            in_check == crate::search::in_check(&b0),
            forall|b: &Board| #[trigger] call_requires(*evaluate, (b,)),
        ensures
            final(self).kept_by(old(self)),
            final(board).consistent(),
            final(board).same_position(old(board)),
            ply > 0 ==> {
                &&& final(self).best_move_this_iteration == old(self).best_move_this_iteration
                &&& final(self).evaluation_this_iteration == old(self).evaluation_this_iteration
                &&& final(self).searched_one_move == old(self).searched_one_move
            },
            ply == 0 ==> root_kept_or_legal(final(self), old(self), &b0),
            ply == 0 && !final(self).search_cancelled && alpha < r < beta && b0.has_legal_move() ==> {
                &&& final(self).searched_one_move
                &&& legal_move(&b0, final(self).best_move_this_iteration)
                &&& final(self).evaluation_this_iteration == r
            },
            !final(self).search_cancelled && !b0.has_legal_move() ==> {
                &&& crate::search::in_check(&b0) ==> r == -(CHECKMATE_EVAL - ply)
                &&& !crate::search::in_check(&b0) ==> r == 0
            },
            !final(self).search_cancelled ==> ab_moves(*evaluate, old(self).best_move, model(old(self)), b0, depth, depth_left, ply, alpha,
                beta, total_extensions, hash_move, r, model(final(self))),
        decreases depth + MAX_SEARCH_EXTENSIONS - total_extensions, 1int,
    {
        let ghost s0 = *old(self);
        let ghost ev = *evaluate;
        let ghost bm = s0.best_move;
        let ghost m_moves = model(self);
        let ghost d2 = depth_left;
        let ghost hash = hash_move;
        let white = board.white_to_move;
        proof {
            lemma_consistent_movable(board, false);
        }
        let ghost before_gen = *board;
        let moves = board.get_pseudo_legal_moves_for_color(white, false);
        let ghost b1 = *board;
        proof {
            board.lemma_wf_same_but_caches(&before_gen);
            board.lemma_same_position_of_caches(&before_gen);
            board.lemma_same_position_trans2(&before_gen, &b0);
            lemma_same_position_consistent(&b0, board);
            assert forall|i: int| 0 <= i < moves@.len() implies (#[trigger] moves@[i]).from < 64 && moves@[i].to < 64 by {
                assert(moves@.contains(moves@[i]));
                lemma_consistent_moves_fit(&b1, false, moves@[i]);
            }
            assert(moves@ == position_move_list(&b0));
        }
        let hm = if ply == 0 && !moves_equal(&self.best_move, &null_move()) { self.best_move } else { hash_move };
        let sorted = self.move_sorter.sort_moves(white, moves, hm, ply as usize);
        let ghost mapped = moves@.map_values(|m: MoveData| (move_score(&self.move_sorter, white, m, hm, ply as int) as i32, m));
        let ghost sorter_at_sort = self.move_sorter;
        let mut cur_alpha = alpha;
        let mut best_move_this_search = null_move();
        let mut found_pv = false;
        let mut legal_moves_found: usize = 0;
        let mut i: usize = 0;
        while i < sorted.len()
            invariant
                i <= sorted@.len(),
                legal_moves_found <= i,
                b0.consistent(),
                moves@ == position_move_list(&b0),
                white == b0.white_to_move,
                b1.consistent(),
                b1.same_position(&b0),
                board.consistent(),
                board.same_position(&b1),
                b1.board_state.current.fifty_move_counter < 255,
                b1.moves@.len() + 400 - ply < usize::MAX,
                total_extensions <= MAX_SEARCH_EXTENSIONS,
                1 <= depth_left,
                depth_left <= depth,
                d2 == depth_left,
                ply + depth_left + MAX_SEARCH_EXTENSIONS - total_extensions <= 255,
                white == b1.white_to_move,
                self.kept_by(&s0),
                s0 == *old(self),
                old(board).same_position(&b0),
                ev == *evaluate,
                bm == s0.best_move,
                forall|b: &Board| #[trigger] call_requires(*evaluate, (b,)),
                sorted@.to_multiset() == mapped.to_multiset(),
                mapped.len() == moves@.len(),
                forall|j: int| 0 <= j < mapped.len() ==> (#[trigger] mapped[j]).1 == moves@[j],
                forall|m: MoveData| #[trigger] moves@.contains(m) <==> color_move(b1.view(), b1.occupied_spec(),
                    last_move_of(b1.moves@), b1.board_state.current.castling_rights, b1.white_to_move, false, m),
                !b0.has_legal_move() ==> legal_moves_found == 0,
                ply > 0 ==> {
                    &&& self.best_move_this_iteration == s0.best_move_this_iteration
                    &&& self.evaluation_this_iteration == s0.evaluation_this_iteration
                    &&& self.searched_one_move == s0.searched_one_move
                },
                ply == 0 ==> root_kept_or_legal(self, &s0, &b0),
                !found_pv ==> cur_alpha == alpha,
                found_pv ==> cur_alpha > alpha,
                ply == 0 && found_pv ==> {
                    &&& self.searched_one_move
                    &&& legal_move(&b0, self.best_move_this_iteration)
                    &&& self.evaluation_this_iteration == cur_alpha
                },
                                !found_pv ==> best_move_this_search == spec_null_move(),
                legal_moves_found == 0 ==> forall|j: int| 0 <= j < i ==> !legal_move(&b0, #[trigger] sorted@[j].1),
                sorted_as(&sorter_at_sort, white, moves@, hm, ply as int, sorted@),
                sorter_at_sort == m_moves.1,
                m_moves == model(old(self)),
                hash == hash_move,
                hm == (if ply == 0 && !same_move(bm, spec_null_move()) { bm } else { hash }),
                not_pv == null_window(alpha, beta),
                !self.search_cancelled ==> forall|r: i32, m1: SearchModel| #[trigger] ab_loop(ev, bm, model(self), b0, depth, d2, ply,
                    alpha, beta, total_extensions, sorted@, i as int, cur_alpha, best_move_this_search, found_pv, legal_moves_found as int,
                    r, m1) ==> ab_loop(ev, bm, m_moves, b0, depth, d2, ply, alpha, beta, total_extensions, sorted@, 0, alpha,
                    spec_null_move(), false, 0, r, m1),
            decreases sorted@.len() - i,
        {
            let m = sorted[i].1;
            let ghost m_k = model(self);
            let ghost head = *self;
            proof {
                lemma_sorted_member(sorted@, mapped, moves@, i as int);
                assert(moves@.contains(m));
                board.lemma_same_position_trans2(&b1, &b0);
            }
            let ghost before = *board;
            let outcome = self.search_move(board, evaluate, m, depth, depth_left, ply, alpha, beta, total_extensions, cur_alpha, found_pv,
                legal_moves_found, not_pv, Ghost(sorted@), Ghost(i as int), Ghost(b0));
            proof {
                board.lemma_same_position_trans2(&before, &b1);
                lemma_same_position_consistent(&b1, board);
            }
            let evaluation = match outcome {
                None => {
                    proof {
                        if !self.search_cancelled {
                            assert forall|r: i32, m1: SearchModel| #[trigger] ab_loop(ev, bm, model(self), b0, depth, d2, ply, alpha, beta,
                                total_extensions, sorted@, i + 1, cur_alpha, best_move_this_search, found_pv, legal_moves_found as int, r,
                                m1) implies ab_loop(ev, bm, m_moves, b0, depth, d2, ply, alpha, beta, total_extensions, sorted@, 0, alpha,
                                spec_null_move(), false, 0, r, m1) by {
                                lemma_loop_skip(ev, bm, model(self), b0, depth, d2, ply, alpha, beta, total_extensions, sorted@, i as int,
                                    cur_alpha, best_move_this_search, found_pv, legal_moves_found as int, r, m1);
                            }
                        }
                    }
                    i = i + 1;
                    continue;
                },
                Some(v) => v,
            };
            let ghost mc = model(self);
            proof {
                assert(legal_move(&b0, m));
                assert(b0.has_legal_move());
            }
            if self.should_cancel_search() {
                proof {
                    board.lemma_same_position_trans2(&b1, &b0);
                }
                return 0;
            }
            if evaluation >= beta {
                self.transposition_table.store(board.zobrist.key.current, depth_left, beta, m, NodeType::LowerBound);
                let ghost sorter_before = self.move_sorter;
                if m.capture == NO_PIECE as u8 {
                    self.move_sorter.push_killer_move(m, ply as usize);
                    let ghost mid = self.move_sorter;
                    proof {
                        lemma_consistent_moves_fit(&b1, false, m);
                        assert forall|c: int, f: int, t: int| 0 <= c < 2 && 0 <= f < 64 && 0 <= t < 64 implies #[trigger] history_at(
                            &self.move_sorter, c, f, t) == history_at(&sorter_before, c, f, t) by {}
                        assert(killer_pushed(sorter_before, m, ply as int, mid));
                    }
                    self.add_history(white, m, depth_left);
                    proof {
                        assert(history_added(mid, white, m, depth_left, self.move_sorter));
                        assert(cutoff_sorter(sorter_before, white, m, ply, d2, self.move_sorter));
                    }
                }
                proof {
                    board.lemma_same_position_trans2(&b1, &b0);
                    if !self.search_cancelled {
                        assert(model(self).0 == stored(mc.0, b0.zobrist.key.current, d2, beta, m, NodeType::LowerBound));
                        lemma_loop_step(ev, bm, m_k, b0, depth, d2, ply, alpha, beta, total_extensions, sorted@, i as int, cur_alpha,
                            best_move_this_search, found_pv, legal_moves_found as int, evaluation, mc, beta, model(self));
                        assert(!head.search_cancelled);
                        assert(ab_loop(ev, bm, model(&head), b0, depth, d2, ply, alpha, beta, total_extensions, sorted@, i as int, cur_alpha,
                            best_move_this_search, found_pv, legal_moves_found as int, beta, model(self)));
                        assert(ab_loop(ev, bm, m_moves, b0, depth, d2, ply, alpha, beta, total_extensions, sorted@, 0, alpha,
                            spec_null_move(), false, 0, beta, model(self)));
                        lemma_moves_loop(ev, bm, m_moves, b0, depth, d2, ply, alpha, beta, total_extensions, hash, sorted@, beta,
                            model(self));
                    }
                }
                return beta;
            }
            let ghost old_cur = cur_alpha;
            let ghost old_best = best_move_this_search;
            let ghost old_found = found_pv;
            if evaluation > cur_alpha {
                found_pv = true;
                best_move_this_search = m;
                cur_alpha = evaluation;
                if ply == 0 {
                    self.searched_one_move = true;
                    self.best_move_this_iteration = m;
                    self.evaluation_this_iteration = evaluation;
                }
            }
            proof {
                if !self.search_cancelled {
                    assert forall|r: i32, m1: SearchModel| #[trigger] ab_loop(ev, bm, model(self), b0, depth, d2, ply, alpha, beta,
                        total_extensions, sorted@, i + 1, cur_alpha, best_move_this_search, found_pv, legal_moves_found + 1, r, m1)
                        implies ab_loop(ev, bm, m_moves, b0, depth, d2, ply, alpha, beta, total_extensions, sorted@, 0, alpha,
                        spec_null_move(), false, 0, r, m1) by {
                        lemma_loop_step(ev, bm, m_k, b0, depth, d2, ply, alpha, beta, total_extensions, sorted@, i as int, old_cur,
                            old_best, old_found, legal_moves_found as int, evaluation, mc, r, m1);
                    }
                }
            }
            legal_moves_found = legal_moves_found + 1;
            i = i + 1;
        }
        proof {
            board.lemma_same_position_trans2(&b1, &b0);
            if legal_moves_found == 0 && b0.has_legal_move() {
                let m = choose|m: MoveData| #[trigger] color_move(b0.view(), b0.occupied_spec(), last_move_of(b0.moves@),
                    b0.board_state.current.castling_rights, b0.white_to_move, false, m) && !king_attacked(
                    apply_move_view(b0.view(), m), occupancy_for(apply_move_view(b0.view(), m)), b0.white_to_move);
                assert(moves@.contains(m));
                lemma_sorted_covers(&sorter_at_sort, white, moves@, hm, ply as int, sorted@, m);
                let j = choose|j: int| 0 <= j < sorted@.len() && (#[trigger] sorted@[j]).1 == m;
                assert(!legal_move(&b0, sorted@[j].1));
            }
        }
        if legal_moves_found == 0 {
            let mate = if in_check { -(CHECKMATE_EVAL - ply as i32) } else { 0 };
            proof {
                if !self.search_cancelled {
                    lemma_loop_end(ev, bm, model(self), b0, depth, d2, ply, alpha, beta, total_extensions, sorted@, cur_alpha,
                        best_move_this_search, found_pv, 0, mate, model(self));
                    lemma_moves_loop(ev, bm, m_moves, b0, depth, d2, ply, alpha, beta, total_extensions, hash, sorted@, mate, model(self));
                }
            }
            return mate;
        }
        let ghost m_end = model(self);
        if !moves_equal(&best_move_this_search, &null_move()) {
            self.transposition_table.store(board.zobrist.key.current, depth_left, cur_alpha, best_move_this_search, NodeType::Exact);
        }
        proof {
            if !self.search_cancelled {
                lemma_loop_end(ev, bm, m_end, b0, depth, d2, ply, alpha, beta, total_extensions, sorted@, cur_alpha, best_move_this_search,
                    found_pv, legal_moves_found as int, cur_alpha, model(self));
                lemma_moves_loop(ev, bm, m_moves, b0, depth, d2, ply, alpha, beta, total_extensions, hash, sorted@, cur_alpha, model(self));
            }
        }
        cur_alpha
    }

    /// Searches one move of the node `b0` (the move `s[k].1` of its sorted
    /// list): makes it, extends it, runs the late-move-reduced, the
    /// null-window and the full-window searches as they are needed, and takes
    /// it back. `None` when the move leaves the own king attacked (nothing
    /// else happens then); otherwise its score, as `move_score_of` gives it
    /// unless the search was cancelled.
    #[verifier::rlimit(100)]
    #[verifier::spinoff_prover]
    fn search_move<E: Fn(&Board) -> i32>(
        &mut self,
        board: &mut Board,
        evaluate: &E,
        m: MoveData,
        depth: u8,
        d2: u8,
        ply: u8,
        alpha: i32,
        beta: i32,
        total_extensions: u8,
        cur: i32,
        found_pv: bool,
        count: usize,
        not_pv: bool,
        Ghost(s): Ghost<Seq<(i32, MoveData)>>,
        Ghost(k): Ghost<int>,
        Ghost(b0): Ghost<Board>,
    ) -> (r: Option<i32>)
        requires
            old(self).wf(),
            old(self).time_limit_us == 0 ==> !old(self).search_cancelled,
            old(board).consistent(),
            b0.consistent(),
            old(board).same_position(&b0),
            0 <= k < s.len(),
            s[k].1 == m,
            color_move(b0.view(), b0.occupied_spec(), last_move_of(b0.moves@), b0.board_state.current.castling_rights,
                b0.white_to_move, false, m),
            b0.board_state.current.fifty_move_counter < 255,
            b0.moves@.len() + 400 - ply < usize::MAX,
            total_extensions <= MAX_SEARCH_EXTENSIONS,
            1 <= d2 <= depth,
            ply + d2 + MAX_SEARCH_EXTENSIONS - total_extensions <= 255,
            not_pv == null_window(alpha, beta),
            forall|b: &Board| #[trigger] call_requires(*evaluate, (b,)),
        ensures
            final(self).kept_by(old(self)),
            final(self).best_move_this_iteration == old(self).best_move_this_iteration,
            final(self).evaluation_this_iteration == old(self).evaluation_this_iteration,
            final(self).searched_one_move == old(self).searched_one_move,
            final(board).consistent(),
            final(board).same_position(old(board)),
            r is None <==> !legal_move(&b0, m),
            r is None ==> *final(self) == *old(self),
            r matches Some(v) ==> (!final(self).search_cancelled ==> move_score_of(*evaluate, old(self).best_move, model(old(self)), b0,
                depth, d2, ply, alpha, beta, total_extensions, s, k, cur, found_pv, count as int, v, model(final(self)))),
        decreases depth + MAX_SEARCH_EXTENSIONS - total_extensions, 0int,
    {
        let ghost ev = *evaluate;
        let ghost bm = self.best_move;
        let ghost m_k = model(self);
        let ghost s_in = *self;
        let white = board.white_to_move;
        proof {
            lemma_consistent_moves_fit(&b0, false, m);
        }
        let ghost before = *board;
        if !board.make_move(m) {
            proof {
                lemma_same_position_consistent(&before, board);
            }
            return None;
        }
        proof {
            lemma_move_keeps_consistency(&before, false, m, board);
            assert(legal_move(&b0, m));
            lemma_after_move_transfer(&before, &b0, m, board);
        }
        let ghost after_move = *board;
        let mover_white = board.white_to_move;
        let gives_check = board.king_in_check(mover_white);
        proof {
            board.lemma_wf_same_but_caches(&after_move);
            board.lemma_same_position_of_caches(&after_move);
            lemma_same_position_consistent(&after_move, board);
            after_move.lemma_occupancy();
            crate::board::lemma_king_attacked_congruent(after_move.view(), after_move.occupied_spec(),
                occupancy_for(after_move.view()), !white);
        }
        let mut extension: u8 = 0;
        if gives_check {
            extension = extension + 1;
        }
        if m.piece == PAWN as u8 {
            let rank = m.to / 8;
            if rank == 1 || rank == 6 {
                extension = extension + 1;
            }
        }
        let room = MAX_SEARCH_EXTENSIONS - total_extensions;
        if extension > room {
            extension = room;
        }
        proof {
            assert(extension == extension_of(&b0, m, total_extensions));
        }
        let mut evaluation: i32 = 0;
        let mut needs_fuller_search = true;
        let ghost mut lmr = false;
        let ghost mut b_1 = b0;
        let ghost mut c_1: i32 = 0;
        let ghost mut m_1 = m_k;
        if count > 3 && d2 > 1 && extension == 0 && m.capture == NO_PIECE as u8 {
            let mut reduction: u8 = 2;
            if found_pv {
                reduction = reduction + 1;
            }
            if not_pv {
                reduction = reduction + 1;
            }
            let child_depth: u8 = if d2 > reduction { d2 - reduction } else { 0 };
            let ghost entry = *board;
            proof {
                lemma_after_move_same(&before, &b0, m, &after_move, &entry);
            }
            let child = self.alpha_beta_search(board, evaluate, child_depth, ply + 1, add_scores(negate(cur), -1), negate(cur),
                total_extensions);
            proof {
                board.lemma_same_position_trans2(&entry, &after_move);
                lmr = true;
                b_1 = entry;
                c_1 = child;
                m_1 = model(self);
            }
            evaluation = negate(child);
            needs_fuller_search = evaluation > cur;
        }
        let ghost v_1 = evaluation;
        let ghost n_1 = needs_fuller_search;
        let ghost mm_1 = model(self);
        let ghost mut pvs = false;
        let ghost mut b_2 = b0;
        let ghost mut c_2: i32 = 0;
        let ghost mut m_2 = m_k;
        if needs_fuller_search && found_pv {
            let ghost entry = *board;
            proof {
                lemma_after_move_same(&before, &b0, m, &after_move, &entry);
            }
            let child = self.alpha_beta_search(board, evaluate, d2 + extension - 1, ply + 1, add_scores(negate(cur), -1), negate(cur),
                total_extensions + extension);
            proof {
                board.lemma_same_position_trans2(&entry, &after_move);
                pvs = true;
                b_2 = entry;
                c_2 = child;
                m_2 = model(self);
            }
            evaluation = negate(child);
            needs_fuller_search = evaluation > cur;
        }
        let ghost v_2 = evaluation;
        let ghost n_2 = needs_fuller_search;
        let ghost mm_2 = model(self);
        let ghost mut full = false;
        let ghost mut b_3 = b0;
        let ghost mut c_3: i32 = 0;
        if needs_fuller_search {
            let ghost entry = *board;
            proof {
                lemma_after_move_same(&before, &b0, m, &after_move, &entry);
            }
            let child = self.alpha_beta_search(board, evaluate, d2 + extension - 1, ply + 1, negate(beta), negate(cur),
                total_extensions + extension);
            proof {
                board.lemma_same_position_trans2(&entry, &after_move);
                full = true;
                b_3 = entry;
                c_3 = child;
            }
            evaluation = negate(child);
        }
        let ghost mc = model(self);
        proof {
            if !self.search_cancelled {
                if full {
                    lemma_full_searched(ev, bm, mm_2, b0, depth, d2, ply, alpha, beta, total_extensions, s, k, cur, v_2, b_3, c_3, mc);
                } else {
                    lemma_full_skipped(ev, bm, mm_2, b0, depth, d2, ply, alpha, beta, total_extensions, s, k, cur, v_2);
                }
                if pvs {
                    lemma_pvs_searched(ev, bm, mm_1, b0, depth, d2, ply, alpha, beta, total_extensions, s, k, cur, found_pv, v_1, n_1, b_2,
                        c_2, m_2, evaluation, mc);
                } else {
                    lemma_pvs_skipped(ev, bm, mm_1, b0, depth, d2, ply, alpha, beta, total_extensions, s, k, cur, found_pv, v_1, n_1,
                        evaluation, mc);
                }
                if lmr {
                    lemma_score_reduced(ev, bm, m_k, b0, depth, d2, ply, alpha, beta, total_extensions, s, k, cur, found_pv, count as int,
                        b_1, c_1, m_1, evaluation, mc);
                } else {
                    lemma_score_unreduced(ev, bm, m_k, b0, depth, d2, ply, alpha, beta, total_extensions, s, k, cur, found_pv,
                        count as int, evaluation, mc);
                }
            }
            crate::board::lemma_apply_undo_fits(before.view(), m);
        }
        let ghost before_undo = *board;
        board.undo_last_move();
        proof {
            crate::board::lemma_make_return_undo_restores(&before, m, &after_move, &before_undo, board);
        }
        Some(evaluation)
    }

    /// The first legal move in generation order, for when the search found
    /// none in time; the null move when the side to move has no legal move.
    /// The board is left in its position.
    pub fn first_legal_move(board: &mut Board) -> (r: MoveData)
        requires
            old(board).consistent(),
            old(board).board_state.current.fifty_move_counter < 255,
            old(board).moves@.len() + 1 < usize::MAX,
        ensures
            final(board).consistent(),
            final(board).same_position(old(board)),
            !old(board).has_legal_move() ==> r == spec_null_move(),
            old(board).has_legal_move() ==> exists|k: int| {
                &&& 0 <= k < position_move_list(old(board)).len()
                &&& #[trigger] position_move_list(old(board))[k] == r
                &&& legal_move(old(board), r)
                &&& forall|j: int| 0 <= j < k ==> !legal_move(old(board), #[trigger] position_move_list(old(board))[j])
            },
    {
        let ghost b0 = *old(board);
        proof {
            lemma_consistent_movable(board, false);
        }
        let white = board.white_to_move;
        let ghost before_gen = *board;
        let moves = board.get_pseudo_legal_moves_for_color(white, false);
        proof {
            board.lemma_wf_same_but_caches(&before_gen);
            board.lemma_same_position_of_caches(&before_gen);
            lemma_same_position_consistent(&b0, board);
        }
        let mut i: usize = 0;
        while i < moves.len()
            invariant
                i <= moves@.len(),
                b0 == *old(board),
                b0.consistent(),
                board.consistent(),
                board.same_position(&b0),
                b0.board_state.current.fifty_move_counter < 255,
                b0.moves@.len() + 1 < usize::MAX,
                white == b0.white_to_move,
                moves@ == position_move_list(&b0),
                forall|m: MoveData| #[trigger] moves@.contains(m) <==> color_move(b0.view(), b0.occupied_spec(),
                    last_move_of(b0.moves@), b0.board_state.current.castling_rights, b0.white_to_move, false, m),
                forall|j: int| 0 <= j < i ==> !legal_move(&b0, #[trigger] moves@[j]),
            decreases moves@.len() - i,
        {
            let m = moves[i];
            proof {
                assert(moves@.contains(m));
                lemma_consistent_moves_fit(&b0, false, m);
            }
            let ghost before = *board;
            if board.make_move(m) {
                proof {
                    lemma_move_keeps_consistency(&before, false, m, board);
                    crate::board::lemma_apply_undo_fits(before.view(), m);
                    board.lemma_same_position_refl();
                }
                let ghost after = *board;
                board.undo_last_move();
                proof {
                    crate::board::lemma_make_return_undo_restores(&before, m, &after, &after, board);
                    board.lemma_same_position_trans2(&before, &b0);
                    lemma_same_position_consistent(&b0, board);
                    assert(legal_move(&b0, m));
                }
                return m;
            }
            proof {
                board.lemma_same_position_trans2(&before, &b0);
                lemma_same_position_consistent(&b0, board);
            }
            i = i + 1;
        }
        proof {
            if b0.has_legal_move() {
                let m = choose|m: MoveData| #[trigger] color_move(b0.view(), b0.occupied_spec(), last_move_of(b0.moves@),
                    b0.board_state.current.castling_rights, b0.white_to_move, false, m) && !king_attacked(
                    apply_move_view(b0.view(), m), occupancy_for(apply_move_view(b0.view(), m)), b0.white_to_move);
                assert(moves@.contains(m));
                let j = choose|j: int| 0 <= j < moves@.len() && moves@[j] == m;
                assert(!legal_move(&b0, moves@[j]));
            }
        }
        null_move()
    }

    /// Adds `depth * depth` to the history score of a quiet cutoff move,
    /// keeping the score below the bound that move scoring needs.
    fn add_history(&mut self, white: bool, m: MoveData, depth: u8)
        requires
            old(self).wf(),
            m.from < 64,
            m.to < 64,
        ensures
            final(self).wf(),
            *final(self) == (Search { move_sorter: final(self).move_sorter, ..*old(self) }),
            history_added(old(self).move_sorter, white, m, depth, final(self).move_sorter),
    {
        let c: usize = if white { 1 } else { 0 };
        let f = m.from as usize;
        let t = m.to as usize;
        let dd: i32 = depth as i32;
        assert(0 <= dd * dd <= 255 * 255) by (nonlinear_arith)
            requires
                0 <= dd <= 255,
        ;
        let add: i32 = dd * dd;
        let cur = self.move_sorter.history[c][f][t];
        let next = if cur > i32::MAX - 5000 - add { i32::MAX - 5000 } else { cur + add };
        let mut by_from = self.move_sorter.history[c];
        let mut by_to = by_from[f];
        by_to[t] = next;
        by_from[f] = by_to;
        self.move_sorter.history[c] = by_from;
        proof {
            assert(add == depth * depth);
            assert(next == history_next(cur as int, depth));
            assert forall|cc: int, ff: int, tt: int| 0 <= cc < 2 && 0 <= ff < 64 && 0 <= tt < 64 implies #[trigger] history_at(
                &self.move_sorter, cc, ff, tt) == if cc == c && ff == m.from && tt == m.to {
                history_next(history_at(&old(self).move_sorter, cc, ff, tt), depth)
            } else {
                history_at(&old(self).move_sorter, cc, ff, tt)
            } by {
                if cc == c && ff == f && tt == t {
                } else if cc == c && ff == f {
                    assert(history_at(&self.move_sorter, cc, ff, tt) == history_at(&old(self).move_sorter, cc, ff, tt));
                } else if cc == c {
                    assert(history_at(&self.move_sorter, cc, ff, tt) == history_at(&old(self).move_sorter, cc, ff, tt));
                } else {
                    assert(history_at(&self.move_sorter, cc, ff, tt) == history_at(&old(self).move_sorter, cc, ff, tt));
                }
            }
            assert forall|cc: int, ff: int, tt: int| 0 <= cc < 2 && 0 <= ff < 64 && 0 <= tt < 64 implies #[trigger] history_at(
                &self.move_sorter, cc, ff, tt) <= i32::MAX - 5000 by {
                assert(history_at(&self.move_sorter, cc, ff, tt) == if cc == c && ff == m.from && tt == m.to {
                    history_next(history_at(&old(self).move_sorter, cc, ff, tt), depth)
                } else {
                    history_at(&old(self).move_sorter, cc, ff, tt)
                });
            }
        }
    }
}

} // verus!
