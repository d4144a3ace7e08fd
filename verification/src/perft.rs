//! Counters of a move-generation test: how many positions, nodes, captures,
//! en-passant captures, castles, promotions and checks a search to a depth met.
use vstd::prelude::*;
use crate::board::{
    Board, last_move_of, lemma_make_return_undo_restores, lemma_apply_undo_fits, occupancy_for, king_attacked, apply_move_view,
    updated_castling_rights,
};
use crate::move_data::{MoveData, EN_PASSANT_FLAG, SHORT_CASTLE_FLAG, LONG_CASTLE_FLAG};
use crate::pieces::{NO_PIECE, promotable_contains};
use crate::consistency::{
    lemma_consistent_moves_fit, lemma_consistent_movable, lemma_move_keeps_consistency, lemma_same_position_consistent,
};

verus! {

#[derive(Default, Debug)]
pub struct PerftResults {
    pub depth: u8,
    pub positions: u128,
    pub nodes: u128,
    pub captures: u128,
    pub en_passants: u128,
    pub castles: u128,
    pub promotions: u128,
    pub checks: u128,
}

impl PerftResults {
    /// Results for a search to `depth`, with every counter at zero.
    pub fn new(depth: u8) -> (r: Self)
        ensures
            r.depth == depth,
            r.positions == 0,
            r.nodes == 0,
            r.captures == 0,
            r.en_passants == 0,
            r.castles == 0,
            r.promotions == 0,
            r.checks == 0,
    {
        PerftResults {
            depth,
            positions: 0,
            nodes: 0,
            captures: 0,
            en_passants: 0,
            castles: 0,
            promotions: 0,
            checks: 0,
        }
    }
}

impl Board {
    /// Room for `depth` more moves: the move list and the fifty-move counter
    /// can grow by `depth` without overflowing.
    pub open spec fn room_for(&self, depth: int) -> bool {
        &&& self.moves@.len() + depth < usize::MAX
        &&& self.board_state.current.fifty_move_counter + depth < 255
    }
}

/// A counter at `b` modulo 2^128 that is stepped by `add` (0 or 1) is at
/// `b + add` modulo 2^128.
proof fn lemma_counter_step(before: u128, b: int, add: int, after: u128)
    requires
        b >= 0,
        before as int == b % counter_modulus(),
        (add == 0 && after == before) || (add == 1 && after == before.wrapping_add(1)),
    ensures
        after as int == (b + add) % counter_modulus(),
{
    lemma_wrapping_add(before, b, 0);
    lemma_wrapping_add(before, b, 1);
    vstd::arithmetic::div_mod::lemma_small_mod(before as nat, counter_modulus() as nat);
}

/// A counter at `b` modulo 2^128 to which `add` is added modulo 2^128 is at
/// `b + add` modulo 2^128.
proof fn lemma_counter_add(mid: u128, b: int, add: int, after: u128)
    requires
        b >= 0,
        add >= 0,
        mid as int == b % counter_modulus(),
        after as int == (mid + add) % counter_modulus(),
    ensures
        after as int == (b + add) % counter_modulus(),
{
    let m = counter_modulus();
    vstd::arithmetic::div_mod::lemma_add_mod_noop(b, add, m);
    vstd::arithmetic::div_mod::lemma_add_mod_noop(mid as int, add, m);
    vstd::arithmetic::div_mod::lemma_small_mod(mid as nat, m as nat);
    vstd::arithmetic::div_mod::lemma_mod_bound(b, m);
    vstd::arithmetic::div_mod::lemma_mod_mod(b, m, 1);
}

/// The counts are never negative.
proof fn lemma_tally_nonneg(v: Seq<int>, last: MoveData, rights: u8, white: bool, depth: nat, kind: int)
    ensures
        tally(v, last, rights, white, depth, kind) >= 0,
    decreases depth, 1int, 0int,
{
    if depth > 0 {
        lemma_tally_moves_nonneg(v, last, rights, white, depth, kind, position_moves(v, last, rights, white).len() as int);
    }
}

proof fn lemma_tally_moves_nonneg(v: Seq<int>, last: MoveData, rights: u8, white: bool, depth: nat, kind: int, n: int)
    ensures
        tally_moves(v, last, rights, white, depth, kind, n) >= 0,
    decreases depth, 0int, n,
{
    if n > 0 && depth > 0 {
        lemma_tally_moves_nonneg(v, last, rights, white, depth, kind, n - 1);
        let m = position_moves(v, last, rights, white)[n - 1];
        lemma_tally_nonneg(apply_move_view(v, m), m, updated_castling_rights(rights, m), !white, (depth - 1) as nat, kind);
    }
}

/// The legal first moves among the first `n` moves of the position, each
/// with the number of positions `depth - 1` plies below it, modulo 2^128.
pub open spec fn first_move_counts(v: Seq<int>, last: MoveData, rights: u8, white: bool, depth: nat, n: int) -> Seq<(MoveData, u128)>
    decreases n,
{
    if n <= 0 {
        Seq::empty()
    } else {
        let m = position_moves(v, last, rights, white)[n - 1];
        first_move_counts(v, last, rights, white, depth, n - 1) + if keeps_king_safe(v, white, m) {
            seq![(m, (tally(apply_move_view(v, m), m, updated_castling_rights(rights, m), !white, (depth - 1) as nat, 6)
                % counter_modulus()) as u128)]
        } else {
            Seq::empty()
        }
    }
}

/// What the search adds to counter `kind` on entering a node at `ply`: one
/// node below the root.
pub open spec fn entry_count(ply: u8, kind: int) -> int {
    if kind == 0 && ply > 0 { 1 } else { 0 }
}

/// Counts, with 128-bit numbers that wrap around, the positions `depth` plies
/// below the board's position and the nodes, captures, en-passant captures,
/// castles, promotions and checks met on the way (see `tally`), trying every
/// pseudo-legal move and keeping those that leave the mover's king safe. The
/// board is left in the position it was in; at ply 0, `first_moves` receives
/// each legal first move with the number of positions below it.
#[verifier::spinoff_prover]
#[verifier::rlimit(100)]
pub fn perft(board: &mut Board, results: &mut PerftResults, depth: u8, ply: u8, first_moves: &mut Vec<(MoveData, u128)>)
    requires
        old(board).consistent(),
        old(board).room_for(depth as int),
        ply as int + depth as int <= 255,
    ensures
        final(board).consistent(),
        final(board).same_position(old(board)),
        final(results).depth == old(results).depth,
        forall|k: int| 0 <= k < 7 ==> #[trigger] counter(final(results), k) as int == (counter(old(results), k) + entry_count(ply, k)
            + tally(old(board).view(), last_move_of(old(board).moves@), old(board).board_state.current.castling_rights,
            old(board).white_to_move, depth as nat, k)) % counter_modulus(),
        ply > 0 || depth == 0 ==> final(first_moves)@ == old(first_moves)@,
        ply == 0 && depth > 0 ==> final(first_moves)@ == old(first_moves)@ + first_move_counts(old(board).view(), last_move_of(old(board).moves@),
            old(board).board_state.current.castling_rights, old(board).white_to_move, depth as nat, position_moves(
            old(board).view(),
            last_move_of(old(board).moves@),
            old(board).board_state.current.castling_rights,
            old(board).white_to_move,
        ).len() as int),
    decreases depth,
{
    let ghost m0 = counter_modulus();
    let ghost r0 = *results;
    let ghost v = board.view();
    let ghost last = last_move_of(board.moves@);
    let ghost rights = board.board_state.current.castling_rights;
    let ghost white = board.white_to_move;
    if ply > 0 {
        results.nodes = results.nodes.wrapping_add(1);
    }
    proof {
        assert forall|k: int| 0 <= k < 7 implies #[trigger] counter(results, k) as int == (counter(&r0, k) + entry_count(ply, k)) % m0 by {
            lemma_wrapping_add(counter(&r0, k), counter(&r0, k) as int, 0);
            lemma_wrapping_add(counter(&r0, k), counter(&r0, k) as int, 1);
            vstd::arithmetic::div_mod::lemma_small_mod(counter(&r0, k) as nat, m0 as nat);
        }
    }
    if depth == 0 {
        let ghost r1 = *results;
        results.positions = results.positions.wrapping_add(1);
        proof {
            board.lemma_same_position_refl();
            assert forall|k: int| 0 <= k < 7 implies #[trigger] counter(results, k) as int == (counter(&r0, k) + entry_count(ply, k)
                + tally(v, last, rights, white, depth as nat, k)) % m0 by {
                vstd::arithmetic::div_mod::lemma_small_mod(counter(&r0, k) as nat, m0 as nat);
                if k == 6 {
                    lemma_wrapping_add(counter(&r1, 6), counter(&r0, 6) + entry_count(ply, 6), 1);
                }
            }
        }
        return;
    }
    proof {
        lemma_consistent_movable(board, false);
    }
    let white_to_move = board.white_to_move;
    let moves = board.get_pseudo_legal_moves_for_color(white_to_move, false);
    let ghost b0 = *old(board);
    let ghost r_start = *results;
    proof {
        board.lemma_wf_same_but_caches(&b0);
        board.lemma_same_position_of_caches(&b0);
        lemma_same_position_consistent(&b0, board);
        b0.lemma_occupancy();
        crate::movegen::lemma_move_list_congruent(v, b0.occupied_spec(), occupancy_for(v), last, rights, white, false);
        assert(moves@ == position_moves(v, last, rights, white));
    }
    let mut i: usize = 0;
    while i < moves.len()
        invariant
            i <= moves@.len(),
            board.consistent(),
            board.same_position(&b0),
            b0 == *old(board),
            b0.consistent(),
            b0.room_for(depth as int),
            depth > 0,
            ply as int + depth as int <= 255,
            results.depth == old(results).depth,
            m0 == counter_modulus(),
            v == b0.view(),
            last == last_move_of(b0.moves@),
            rights == b0.board_state.current.castling_rights,
            white == b0.white_to_move,
            moves@ == position_moves(v, last, rights, white),
            ply > 0 ==> first_moves@ == old(first_moves)@,
            ply == 0 ==> first_moves@ == old(first_moves)@ + first_move_counts(v, last, rights, white, depth as nat, i as int),
            forall|k: int| 0 <= k < 7 ==> #[trigger] counter(results, k) as int == (counter(old(results), k) + entry_count(ply, k)
                + tally_moves(v, last, rights, white, depth as nat, k, i as int)) % m0,
            forall|m: crate::move_data::MoveData| #[trigger] moves@.contains(m) <==> crate::movegen::color_move(b0.view(),
                b0.occupied_spec(), crate::board::last_move_of(b0.moves@), b0.board_state.current.castling_rights,
                b0.white_to_move, false, m),
        decreases moves@.len() - i,
    {
        let data = moves[i];
        let ghost before = *board;
        let ghost r_before = *results;
        let ghost base = |k: int| counter(old(results), k) + entry_count(ply, k) + tally_moves(v, last, rights, white, depth as nat, k, i as int);
        proof {
            assert forall|k: int| 0 <= k < 7 implies #[trigger] base(k) >= 0 by {
                lemma_tally_moves_nonneg(v, last, rights, white, depth as nat, k, i as int);
            }
            assert(moves@.contains(data));
            lemma_consistent_moves_fit(board, false, data);
            assert forall|k: int| 0 <= k < 7 implies tally_moves(v, last, rights, white, depth as nat, k, i + 1) == tally_moves(v, last,
                rights, white, depth as nat, k, i as int) + if keeps_king_safe(v, white, data) {
                move_count(v, white, data, k) + tally(apply_move_view(v, data), data, updated_castling_rights(rights, data), !white,
                    (depth - 1) as nat, k)
            } else {
                0
            } by {}
            assert(first_move_counts(v, last, rights, white, depth as nat, i + 1) == first_move_counts(v, last, rights, white,
                depth as nat, i as int) + if keeps_king_safe(v, white, data) {
                seq![(data, (tally(apply_move_view(v, data), data, updated_castling_rights(rights, data), !white,
                    (depth - 1) as nat, 6) % m0) as u128)]
            } else {
                Seq::empty()
            });
            assert(before.view() == v);
        }
        if board.make_move(data) {
            let ghost after = *board;
            proof {
                lemma_move_keeps_consistency(&before, false, data, board);
            }
            let position_count_before_move = results.positions;
            if data.capture != NO_PIECE as u8 {
                results.captures = results.captures.wrapping_add(1);
                if data.flag == EN_PASSANT_FLAG {
                    results.en_passants = results.en_passants.wrapping_add(1);
                }
            } else if data.flag == SHORT_CASTLE_FLAG || data.flag == LONG_CASTLE_FLAG {
                results.castles = results.castles.wrapping_add(1);
            }
            if promotable_contains(data.flag) {
                results.promotions = results.promotions.wrapping_add(1);
            }
            let ghost before_check = *board;
            let check = board.king_in_check(board.white_to_move);
            proof {
                board.lemma_wf_same_but_caches(&before_check);
                board.lemma_same_position_of_caches(&before_check);
                lemma_same_position_consistent(&before_check, board);
                before_check.lemma_occupancy();
                crate::board::lemma_king_attacked_congruent(before_check.view(), before_check.occupied_spec(),
                    occupancy_for(before_check.view()), !white);
                assert(check == king_attacked(apply_move_view(v, data), occupancy_for(apply_move_view(v, data)), !white));
            }
            if check {
                results.checks = results.checks.wrapping_add(1);
            }
            let ghost r_mid = *results;
            proof {
                assert(r_mid.nodes == r_before.nodes && r_mid.positions == r_before.positions);
                assert(r_mid.captures == if data.capture != NO_PIECE as u8 { r_before.captures.wrapping_add(1) } else { r_before.captures });
                assert(r_mid.en_passants == if data.capture != NO_PIECE as u8 && data.flag == EN_PASSANT_FLAG {
                    r_before.en_passants.wrapping_add(1)
                } else {
                    r_before.en_passants
                });
                assert(r_mid.castles == if data.capture == NO_PIECE as u8 && (data.flag == SHORT_CASTLE_FLAG || data.flag == LONG_CASTLE_FLAG) {
                    r_before.castles.wrapping_add(1)
                } else {
                    r_before.castles
                });
                assert(r_mid.promotions == if crate::pieces::is_promotable(data.flag as int) { r_before.promotions.wrapping_add(1) } else {
                    r_before.promotions
                });
                assert(r_mid.checks == if check { r_before.checks.wrapping_add(1) } else { r_before.checks });
                assert forall|k: int| 0 <= k < 7 implies #[trigger] counter(&r_mid, k) as int == (base(k) + if k == 0 || k == 6 {
                    0
                } else {
                    move_count(v, white, data, k)
                }) % m0 by {
                    lemma_counter_step(counter(&r_before, k), base(k), if k == 0 || k == 6 { 0 } else { move_count(v, white, data, k) },
                        counter(&r_mid, k));
                }
            }
            let ghost before_child = *board;
            perft(board, results, depth - 1, ply + 1, first_moves);
            let ghost after_child = *board;
            let ghost r_child = *results;
            proof {
                lemma_apply_undo_fits(before.view(), data);
                after_child.lemma_same_position_trans2(&before_child, &before_check);
                assert(before_child.view() == apply_move_view(v, data));
                assert(last_move_of(before_child.moves@) == data);
                assert forall|k: int| 0 <= k < 7 implies #[trigger] counter(&r_child, k) as int == (base(k) + move_count(v, white, data, k)
                    + tally(apply_move_view(v, data), data, updated_castling_rights(rights, data), !white, (depth - 1) as nat, k)) % m0 by {
                    let t = tally(apply_move_view(v, data), data, updated_castling_rights(rights, data), !white, (depth - 1) as nat, k);
                    lemma_tally_nonneg(apply_move_view(v, data), data, updated_castling_rights(rights, data), !white, (depth - 1) as nat, k);
                    let mc = if k == 0 || k == 6 { 0 } else { move_count(v, white, data, k) };
                    let e: int = if k == 0 { 1 } else { 0 };
                    assert(entry_count((ply + 1) as u8, k) == e);
                    assert(move_count(v, white, data, k) == mc + e);
                    lemma_counter_add(counter(&r_mid, k), base(k) + mc, e + t, counter(&r_child, k));
                }
            }
            board.undo_last_move();
            proof {
                after_child.lemma_same_position_trans2(&before_check, &after);
                lemma_make_return_undo_restores(&before, data, &after, &after_child, board);
                board.lemma_same_position_trans2(&before, &b0);
                lemma_same_position_consistent(&b0, board);
            }
            if ply == 0 {
                let positions_this_move = results.positions.wrapping_sub(position_count_before_move);
                proof {
                    let t = tally(apply_move_view(v, data), data, updated_castling_rights(rights, data), !white, (depth - 1) as nat, 6);
                    lemma_tally_nonneg(apply_move_view(v, data), data, updated_castling_rights(rights, data), !white, (depth - 1) as nat, 6);
                    assert(base(6) >= 0);
                    assert(counter(&r_before, 6) as int == base(6) % m0);
                    assert(counter(&r_child, 6) as int == (base(6) + t) % m0);
                    lemma_wrapping_sub(results.positions, position_count_before_move, base(6), t);
                }
                first_moves.push((data, positions_this_move));
            }
        } else {
            proof {
                board.lemma_same_position_trans2(&before, &b0);
                lemma_same_position_consistent(&b0, board);
            }
        }
        i = i + 1;
    }
    proof {
        assert forall|k: int| 0 <= k < 7 implies #[trigger] counter(results, k) as int == (counter(old(results), k) + entry_count(ply, k)
            + tally(v, last, rights, white, depth as nat, k)) % m0 by {}
    }
}

impl PerftResults {
    /// Counts below `board`'s position to `depth` (see `perft`) and returns
    /// the counts with each legal first move and the positions below it.
    pub fn calculate(board: &mut Board, depth: u8) -> (r: (PerftResults, Vec<(MoveData, u128)>))
        requires
            old(board).consistent(),
            old(board).room_for(depth as int),
        ensures
            final(board).consistent(),
            final(board).same_position(old(board)),
            r.0.depth == depth,
            forall|k: int| 0 <= k < 7 ==> #[trigger] counter(&r.0, k) as int == tally(old(board).view(), last_move_of(old(board).moves@),
                old(board).board_state.current.castling_rights, old(board).white_to_move, depth as nat, k) % counter_modulus(),
            depth == 0 ==> r.1@.len() == 0,
            depth > 0 ==> r.1@ == first_move_counts(old(board).view(), last_move_of(old(board).moves@),
                old(board).board_state.current.castling_rights, old(board).white_to_move, depth as nat, position_moves(
                old(board).view(),
                last_move_of(old(board).moves@),
                old(board).board_state.current.castling_rights,
                old(board).white_to_move,
            ).len() as int),
    {
        let mut results = PerftResults::new(depth);
        let mut first_moves: Vec<(MoveData, u128)> = Vec::new();
        perft(board, &mut results, depth, 0, &mut first_moves);
        (results, first_moves)
    }
}

/// Two to the 128th: where the 128-bit counters wrap around.
pub open spec fn counter_modulus() -> int {
    u128::MAX as int + 1
}

/// Adding `c` to a 128-bit counter that holds `b` modulo 2^128 gives
/// `b + c` modulo 2^128.
proof fn lemma_wrapping_add(a: u128, b: int, c: u128)
    requires
        b >= 0,
        a as int == b % counter_modulus(),
    ensures
        a.wrapping_add(c) as int == (b + c) % counter_modulus(),
{
    let m = counter_modulus();
    vstd::arithmetic::div_mod::lemma_add_mod_noop(b, c as int, m);
    vstd::arithmetic::div_mod::lemma_small_mod(c as nat, m as nat);
    if a + c > u128::MAX {
        vstd::arithmetic::div_mod::lemma_mod_add_multiples_vanish(a + c - m, m);
        vstd::arithmetic::div_mod::lemma_small_mod((a + c - m) as nat, m as nat);
    } else {
        vstd::arithmetic::div_mod::lemma_small_mod((a + c) as nat, m as nat);
    }
}

/// Taking the count before from the count after gives what was added, modulo 2^128.
proof fn lemma_wrapping_sub(a1: u128, a0: u128, b: int, t: int)
    requires
        b >= 0,
        t >= 0,
        a0 as int == b % counter_modulus(),
        a1 as int == (b + t) % counter_modulus(),
    ensures
        a1.wrapping_sub(a0) as int == t % counter_modulus(),
{
    let m = counter_modulus();
    vstd::arithmetic::div_mod::lemma_sub_mod_noop(b + t, b, m);
    if a1 >= a0 {
        vstd::arithmetic::div_mod::lemma_small_mod((a1 - a0) as nat, m as nat);
    } else {
        vstd::arithmetic::div_mod::lemma_mod_add_multiples_vanish(a1 - a0, m);
        vstd::arithmetic::div_mod::lemma_small_mod((a1 - a0 + m) as nat, m as nat);
    }
}

/// The moves generated for the side to move `white` in the position with
/// placement `v`, last move `last` and castling rights `rights`.
pub open spec fn position_moves(v: Seq<int>, last: MoveData, rights: u8, white: bool) -> Seq<MoveData> {
    crate::movegen::color_move_list(v, occupancy_for(v), last, rights, white, false)
}

/// The move keeps the mover's king safe.
pub open spec fn keeps_king_safe(v: Seq<int>, white: bool, m: MoveData) -> bool {
    !king_attacked(apply_move_view(v, m), occupancy_for(apply_move_view(v, m)), white)
}

/// The counters, by number: 0 nodes, 1 captures, 2 en-passant captures,
/// 3 castles, 4 promotions, 5 checks, 6 positions.
pub open spec fn counter(r: &PerftResults, kind: int) -> u128 {
    if kind == 0 { r.nodes }
    else if kind == 1 { r.captures }
    else if kind == 2 { r.en_passants }
    else if kind == 3 { r.castles }
    else if kind == 4 { r.promotions }
    else if kind == 5 { r.checks }
    else { r.positions }
}

/// What making the legal move `m` adds to counter `kind`: a node, and a
/// capture, en-passant capture, castle, promotion or check as the move is one.
pub open spec fn move_count(v: Seq<int>, white: bool, m: MoveData, kind: int) -> int {
    if kind == 0 {
        1
    } else if kind == 1 {
        if m.capture != NO_PIECE { 1 } else { 0 }
    } else if kind == 2 {
        if m.capture != NO_PIECE && m.flag == EN_PASSANT_FLAG { 1 } else { 0 }
    } else if kind == 3 {
        if m.capture == NO_PIECE && (m.flag == SHORT_CASTLE_FLAG || m.flag == LONG_CASTLE_FLAG) { 1 } else { 0 }
    } else if kind == 4 {
        if crate::pieces::is_promotable(m.flag as int) { 1 } else { 0 }
    } else if kind == 5 {
        if king_attacked(apply_move_view(v, m), occupancy_for(apply_move_view(v, m)), !white) { 1 } else { 0 }
    } else {
        0
    }
}

/// Counter `kind` of the search `depth` plies deep below the position.
pub open spec fn tally(v: Seq<int>, last: MoveData, rights: u8, white: bool, depth: nat, kind: int) -> int
    decreases depth, 1int, 0int,
{
    if depth == 0 {
        if kind == 6 { 1 } else { 0 }
    } else {
        tally_moves(v, last, rights, white, depth, kind, position_moves(v, last, rights, white).len() as int)
    }
}

/// Counter `kind` of the search below the position, over its first `n` moves.
pub open spec fn tally_moves(v: Seq<int>, last: MoveData, rights: u8, white: bool, depth: nat, kind: int, n: int) -> int
    decreases depth, 0int, n,
{
    if n <= 0 || depth == 0 {
        0
    } else {
        let m = position_moves(v, last, rights, white)[n - 1];
        tally_moves(v, last, rights, white, depth, kind, n - 1) + if keeps_king_safe(v, white, m) {
            move_count(v, white, m, kind) + tally(apply_move_view(v, m), m, updated_castling_rights(rights, m), !white,
                (depth - 1) as nat, kind)
        } else {
            0
        }
    }
}


/// A legal move that promotes (its flag names the new piece: knight, bishop,
/// rook or queen, 1 to 4).
pub open spec fn legal_promotion(v: Seq<int>, white: bool) -> spec_fn(MoveData) -> bool {
    |m: MoveData| keeps_king_safe(v, white, m) && 1 <= m.flag <= 4
}

proof fn lemma_filter_push(s: Seq<MoveData>, x: MoveData, p: spec_fn(MoveData) -> bool)
    ensures
        s.push(x).filter(p) == if p(x) { s.filter(p).push(x) } else { s.filter(p) },
{
    reveal_with_fuel(Seq::filter, 1);
    assert(s.push(x).drop_last() =~= s);
    assert(s.push(x).last() == x);
}

proof fn lemma_promotions_prefix(v: Seq<int>, last: MoveData, rights: u8, white: bool, n: int)
    requires
        0 <= n <= position_moves(v, last, rights, white).len(),
    ensures
        tally_moves(v, last, rights, white, 1, 4, n) == position_moves(v, last, rights, white).take(n).filter(
            legal_promotion(v, white)).len(),
    decreases n,
{
    let ms = position_moves(v, last, rights, white);
    if n == 0 {
        assert(ms.take(0) =~= Seq::<MoveData>::empty());
        assert(Seq::<MoveData>::empty().filter(legal_promotion(v, white)) =~= Seq::<MoveData>::empty()) by {
            reveal_with_fuel(Seq::filter, 1);
        }
    } else {
        lemma_promotions_prefix(v, last, rights, white, n - 1);
        let m = ms[n - 1];
        assert(ms.take(n) =~= ms.take(n - 1).push(m));
        lemma_filter_push(ms.take(n - 1), m, legal_promotion(v, white));
        assert(tally(apply_move_view(v, m), m, updated_castling_rights(rights, m), !white, 0, 4) == 0);
    }
}

/// One ply deep, the promotions counter counts every legal promotion once:
/// the four promotions of a pawn (to knight, bishop, rook and queen) are
/// four moves.
pub proof fn lemma_promotions_one_ply(v: Seq<int>, last: MoveData, rights: u8, white: bool)
    ensures
        tally(v, last, rights, white, 1, 4) == position_moves(v, last, rights, white).filter(legal_promotion(v, white)).len(),
{
    let ms = position_moves(v, last, rights, white);
    lemma_promotions_prefix(v, last, rights, white, ms.len() as int);
    assert(ms.take(ms.len() as int) =~= ms);
}

} // verus!
