//! Move ordering: the hash move first, then captures by MVV-LVA, then quiet
//! moves by killer bonus and history score.
use vstd::prelude::*;
use crate::killer_moves::KillerMoves;
use crate::move_data::{MoveData, same_move, moves_equal};
use crate::pieces::{NO_PIECE, get_piece_type, spec_piece_type};

verus! {

pub const MAX_SORT_MOVE_PLY: usize = 32;

/// Most valuable victim / least valuable attacker bonus, indexed by
/// `attacker_type * 6 + victim_type`.
pub const MVV_LVA: [i32; 36] = [
    15, 25, 35, 45, 55, 65,
    14, 24, 34, 44, 54, 64,
    13, 23, 33, 43, 53, 63,
    12, 22, 32, 42, 52, 62,
    11, 21, 31, 41, 51, 61,
    10, 20, 30, 40, 50, 60,
];

pub open spec fn spec_mvv_lva(k: int) -> int {
    let attacker = k / 6;
    let victim = k % 6;
    15 - attacker + 10 * victim
}

pub struct MoveSorter {
    pub killer_moves: [KillerMoves; 32],
    pub history: [[[i32; 64]; 64]; 2],
}

pub open spec fn history_at(s: &MoveSorter, color: int, from: int, to: int) -> int {
    s.history@[color]@[from]@[to] as int
}

pub open spec fn is_killer_at(s: &MoveSorter, ply: int, m: MoveData) -> bool {
    0 <= ply < 32 && (same_move(s.killer_moves@[ply].moves@[0], m) || same_move(
        s.killer_moves@[ply].moves@[1],
        m,
    ))
}

/// The ordering score of move `m`.
pub open spec fn move_score(s: &MoveSorter, white_to_move: bool, m: MoveData, hash_move: MoveData, ply: int) -> int {
    if same_move(m, hash_move) {
        i32::MAX as int
    } else if m.capture == NO_PIECE {
        (if is_killer_at(s, ply, m) { 5000int } else { 0int }) + history_at(
            s,
            if white_to_move { 1 } else { 0 },
            m.from as int,
            m.to as int,
        )
    } else {
        8000 + spec_mvv_lva((m.piece % 6) as int * 6 + (m.capture % 6) as int)
    }
}

/// The scores are in non-increasing order.
/// Each move paired with its score, in the given order.
pub open spec fn scored_moves(s: &MoveSorter, white_to_move: bool, moves: Seq<MoveData>, hash_move: MoveData, ply: int) -> Seq<(i32, MoveData)> {
    moves.map_values(|m: MoveData| (move_score(s, white_to_move, m, hash_move, ply) as i32, m))
}

/// `r` is what `sort_moves` gives for `moves`: the scored moves best first,
/// moves of equal score in their given order.
pub open spec fn sorted_as(s: &MoveSorter, white_to_move: bool, moves: Seq<MoveData>, hash_move: MoveData, ply: int, r: Seq<(i32, MoveData)>) -> bool {
    &&& r.len() == moves.len()
    &&& sorted_by_score(r)
    &&& r.to_multiset() == scored_moves(s, white_to_move, moves, hash_move, ply).to_multiset()
    &&& forall|c: i32| #[trigger] with_score(r, c) == with_score(scored_moves(s, white_to_move, moves, hash_move, ply), c)
}

pub open spec fn sorted_by_score(s: Seq<(i32, MoveData)>) -> bool {
    forall|a: int, b: int| 0 <= a < b < s.len() ==> s[a].0 >= s[b].0
}

/// A pair has score `c`.
pub open spec fn score_is(c: i32) -> spec_fn((i32, MoveData)) -> bool {
    |p: (i32, MoveData)| p.0 == c
}

/// The pairs of `s` with score `c`, in their order in `s`.
pub open spec fn with_score(s: Seq<(i32, MoveData)>, c: i32) -> Seq<(i32, MoveData)> {
    s.filter(score_is(c))
}

/// Appending `x` appends it to the pairs of its own score only.
proof fn lemma_with_score_push(s: Seq<(i32, MoveData)>, x: (i32, MoveData), c: i32)
    ensures
        with_score(s.push(x), c) == if x.0 == c { with_score(s, c).push(x) } else { with_score(s, c) },
{
    reveal_with_fuel(Seq::filter, 1);
    assert(s.push(x).drop_last() =~= s);
    assert(s.push(x).last() == x);
}

/// Putting `x` between `a` and `b`, where `b` only holds lower scores, keeps
/// the pairs of every score in the order `a`, `b`, then `x`.
proof fn lemma_insert_keeps_ties(a: Seq<(i32, MoveData)>, b: Seq<(i32, MoveData)>, x: (i32, MoveData), c: i32)
    requires
        forall|k: int| 0 <= k < b.len() ==> (#[trigger] b[k]).0 < x.0,
    ensures
        with_score(a + seq![x] + b, c) == with_score((a + b).push(x), c),
{
    let pred = score_is(c);
    reveal_with_fuel(Seq::filter, 2);
    Seq::filter_distributes_over_add(a + seq![x], b, pred);
    Seq::filter_distributes_over_add(a, seq![x], pred);
    Seq::filter_distributes_over_add(a, b, pred);
    let single = seq![x];
    assert(single.drop_last() =~= Seq::<(i32, MoveData)>::empty());
    assert(single.last() == x);
    assert(Seq::<(i32, MoveData)>::empty().filter(pred) =~= Seq::<(i32, MoveData)>::empty());
    let ab = (a + b).push(x);
    assert(ab.drop_last() =~= a + b);
    assert(ab.last() == x);
    if c == x.0 {
        assert(pred(x));
        assert(single.filter(pred) =~= seq![x]);
        assert forall|k: int| 0 <= k < b.len() implies !pred(#[trigger] b[k]) by {}
        b.lemma_all_neg_filter_empty(pred);
        assert(b.filter(pred) =~= Seq::<(i32, MoveData)>::empty());
        assert(ab.filter(pred) == (a + b).filter(pred).push(x));
        assert(a.filter(pred) + seq![x] + b.filter(pred) =~= (a.filter(pred) + b.filter(pred)).push(x));
    } else {
        assert(!pred(x));
        assert(single.filter(pred) =~= Seq::<(i32, MoveData)>::empty());
        assert(ab.filter(pred) == (a + b).filter(pred));
        assert(a.filter(pred) + Seq::<(i32, MoveData)>::empty() + b.filter(pred) =~= a.filter(pred) + b.filter(pred));
    }
}

/// No history score is so high that adding the killer bonus overflows.
pub open spec fn history_bounded(s: &MoveSorter) -> bool {
    forall|c: int, f: int, t: int|
        0 <= c < 2 && 0 <= f < 64 && 0 <= t < 64 ==> #[trigger] history_at(s, c, f, t) <= i32::MAX
            - 5000
}

proof fn lemma_mvv_lva_table(k: int)
    requires
        0 <= k < 36,
    ensures
        MVV_LVA@[k] == spec_mvv_lva(k),
{
    assert(MVV_LVA@ =~= seq![
        15i32, 25, 35, 45, 55, 65, 14, 24, 34, 44, 54, 64, 13, 23, 33, 43, 53, 63, 12, 22, 32,
        42, 52, 62, 11, 21, 31, 41, 51, 61, 10, 20, 30, 40, 50, 60,
    ]);
}

impl MoveSorter {
    pub fn new() -> (r: Self)
        ensures
            forall|p: int| 0 <= p < 32 ==> #[trigger] r.killer_moves@[p] == KillerMoves::spec_new(),
            forall|c: int, f: int, t: int|
                0 <= c < 2 && 0 <= f < 64 && 0 <= t < 64 ==> #[trigger] history_at(&r, c, f, t) == 0,
    {
        let k = KillerMoves::new();
        MoveSorter { killer_moves: [k; 32], history: [[[0i32; 64]; 64]; 2] }
    }

    pub fn clear(&mut self)
        ensures
            forall|p: int| 0 <= p < 32 ==> #[trigger] final(self).killer_moves@[p]
                == KillerMoves::spec_new(),
            forall|c: int, f: int, t: int|
                0 <= c < 2 && 0 <= f < 64 && 0 <= t < 64 ==> #[trigger] history_at(final(self), c, f, t)
                    == 0,
    {
        let k = KillerMoves::new();
        self.killer_moves = [k; 32];
        self.history = [[[0i32; 64]; 64]; 2];
    }

    /// Records a quiet cutoff move as a killer at `ply`, when the ply is in range.
    pub fn push_killer_move(&mut self, data: MoveData, ply: usize)
        ensures
            final(self).history == old(self).history,
            ply >= MAX_SORT_MOVE_PLY ==> final(self).killer_moves == old(self).killer_moves,
            ply < MAX_SORT_MOVE_PLY ==> {
                &&& final(self).killer_moves@ == old(self).killer_moves@.update(
                    ply as int,
                    final(self).killer_moves@[ply as int],
                )
                &&& KillerMoves::added(old(self).killer_moves@[ply as int], data, final(self).killer_moves@[ply as int])
            },
    {
        if ply < MAX_SORT_MOVE_PLY {
            let mut k = self.killer_moves[ply];
            k.add_killer_move(data);
            self.killer_moves[ply] = k;
        }
    }

    fn score_of(&self, white_to_move: bool, m: MoveData, hash_move: MoveData, ply: usize) -> (r: i32)
        requires
            m.capture == NO_PIECE ==> m.from < 64 && m.to < 64,
            history_bounded(self),
        ensures
            r as int == move_score(self, white_to_move, m, hash_move, ply as int),
    {
        if moves_equal(&m, &hash_move) {
            i32::MAX
        } else if m.capture == NO_PIECE as u8 {
            let mut score: i32 = 0;
            if ply < MAX_SORT_MOVE_PLY && self.killer_moves[ply].is_killer(m) {
                score = score + 5000;
            }
            let color: usize = if white_to_move { 1 } else { 0 };
            proof {
                assert(history_at(self, color as int, m.from as int, m.to as int) <= i32::MAX - 5000);
            }
            score + self.history[color][m.from as usize][m.to as usize]
        } else {
            let k = get_piece_type(m.piece as usize) * 6 + get_piece_type(m.capture as usize);
            proof {
                lemma_mvv_lva_table(k as int);
            }
            8000 + MVV_LVA[k]
        }
    }

    /// Scores every move and returns the `(score, move)` pairs best first;
    /// moves with equal scores keep their order.
    pub fn sort_moves(&self, white_to_move: bool, moves: Vec<MoveData>, hash_move: MoveData, ply: usize) -> (r: Vec<(i32, MoveData)>)
        requires
            forall|i: int| 0 <= i < moves@.len() && (#[trigger] moves@[i]).capture == NO_PIECE ==> moves@[i].from < 64
                && moves@[i].to < 64,
            history_bounded(self),
        ensures
            sorted_as(self, white_to_move, moves@, hash_move, ply as int, r@),
            r@.len() == moves@.len(),
            sorted_by_score(r@),
            r@.to_multiset() == scored_moves(self, white_to_move, moves@, hash_move, ply as int).to_multiset(),
            forall|c: i32| #[trigger] with_score(r@, c) == with_score(
                scored_moves(self, white_to_move, moves@, hash_move, ply as int),
                c,
            ),
    {
        let ghost scored = scored_moves(self, white_to_move, moves@, hash_move, ply as int);
        let mut result: Vec<(i32, MoveData)> = Vec::new();
        let n = moves.len();
        let mut i: usize = 0;
        proof {
            assert(result@ =~= scored.subrange(0, 0));
        }
        while i < n
            invariant
                n == moves@.len(),
                i <= n,
                result@.len() == i,
                history_bounded(self),
                forall|j: int| 0 <= j < moves@.len() && (#[trigger] moves@[j]).capture == NO_PIECE ==> moves@[j].from < 64
                    && moves@[j].to < 64,
                scored == scored_moves(self, white_to_move, moves@, hash_move, ply as int),
                sorted_by_score(result@),
                result@.to_multiset() == scored.subrange(0, i as int).to_multiset(),
                forall|c: i32| #[trigger] with_score(result@, c) == with_score(scored.subrange(0, i as int), c),
            decreases n - i,
        {
            let m = moves[i];
            let s = self.score_of(white_to_move, m, hash_move, ply);
            let ghost before = result@;
            result.push((s, m));
            proof {
                broadcast use vstd::seq_lib::group_to_multiset_ensures;
                assert(scored.subrange(0, i + 1) =~= scored.subrange(0, i as int).push(scored[i as int]));
                assert(scored[i as int] == (s, m));
            }
            let mut pos = i;
            proof {
                assert(result@ =~= before.subrange(0, pos as int) + seq![(s, m)] + before.subrange(pos as int, i as int));
            }
            while pos > 0 && result[pos - 1].0 < result[pos].0
                invariant
                    pos <= i,
                    i == before.len(),
                    result@.len() == i + 1,
                    result@[pos as int] == (s, m),
                    result@.to_multiset() == scored.subrange(0, i + 1).to_multiset(),
                    forall|a: int, b: int| 0 <= a < b <= i && a != pos && b != pos ==> result@[a].0 >= result@[b].0,
                    forall|b: int| pos < b <= i ==> s >= result@[b].0,
                    result@ == before.subrange(0, pos as int) + seq![(s, m)] + before.subrange(pos as int, i as int),
                    forall|k: int| pos <= k < i ==> (#[trigger] before[k]).0 < s,
                decreases pos,
            {
                let prev = result[pos - 1];
                proof {
                    lemma_swap_multiset_seq(result@, pos - 1, pos as int);
                }
                result[pos - 1] = (s, m);
                result[pos] = prev;
                pos = pos - 1;
                proof {
                    assert(result@ =~= before.subrange(0, pos as int) + seq![(s, m)] + before.subrange(pos as int, i as int));
                }
            }
            proof {
                let a = before.subrange(0, pos as int);
                let b = before.subrange(pos as int, i as int);
                assert(before =~= a + b);
                assert forall|c: i32| #[trigger] with_score(result@, c) == with_score(scored.subrange(0, i + 1), c) by {
                    lemma_insert_keeps_ties(a, b, (s, m), c);
                    let pushed = scored.subrange(0, i + 1);
                    assert(pushed =~= scored.subrange(0, i as int).push((s, m)));
                    assert(pushed.drop_last() =~= scored.subrange(0, i as int));
                    assert(pushed.last() == (s, m));
                    assert(before.push((s, m)).drop_last() =~= before);
                    assert(before.push((s, m)).last() == (s, m));
                    assert(with_score(before, c) == with_score(scored.subrange(0, i as int), c));
                    lemma_with_score_push(before, (s, m), c);
                    lemma_with_score_push(scored.subrange(0, i as int), (s, m), c);
                    assert(with_score(before.push((s, m)), c) == with_score(pushed, c));
                }
            }
            i = i + 1;
        }
        proof {
            assert(scored.subrange(0, n as int) =~= scored);
        }
        result
    }
}

proof fn lemma_swap_multiset_seq<A>(s: Seq<A>, i: int, j: int)
    requires
        0 <= i < s.len(),
        0 <= j < s.len(),
    ensures
        s.update(i, s[j]).update(j, s[i]).to_multiset() =~= s.to_multiset(),
{
    let a = s[i];
    let b = s[j];
    let s1 = s.update(i, b);
    vstd::seq_lib::to_multiset_update(s, i, b);
    vstd::seq_lib::to_multiset_update(s1, j, a);
    if i == j {
        assert(s.update(i, s[j]).update(j, s[i]) =~= s);
    } else {
        let m = s.to_multiset();
        assert(m.insert(b).remove(a).insert(a).remove(b) =~= m) by {
            broadcast use vstd::seq_lib::group_to_multiset_ensures;
            assert(s.contains(a));
            assert(m.count(a) > 0);
        }
    }
}


proof fn lemma_mvv_lva_value(a: int, v: int)
    requires
        0 <= a < 6,
        0 <= v < 6,
    ensures
        spec_mvv_lva(a * 6 + v) == 15 - a + 10 * v,
{
    assert((a * 6 + v) / 6 == a && (a * 6 + v) % 6 == v) by (nonlinear_arith)
        requires
            0 <= a < 6,
            0 <= v < 6,
    ;
}

/// Most valuable victim, least valuable attacker: of two captures that are
/// not the hash move, the one taking the higher piece type scores higher,
/// and for victims of one type, the one made with the lower piece type
/// scores higher. Every such capture scores above 8000.
pub proof fn lemma_mvv_lva_order(s: &MoveSorter, white_to_move: bool, m1: MoveData, m2: MoveData, hash_move: MoveData, ply: int)
    requires
        m1.capture != NO_PIECE,
        m2.capture != NO_PIECE,
        !same_move(m1, hash_move),
        !same_move(m2, hash_move),
    ensures
        move_score(s, white_to_move, m1, hash_move, ply) > 8000,
        spec_piece_type(m1.capture as int) > spec_piece_type(m2.capture as int) ==> move_score(s, white_to_move, m1, hash_move, ply)
            > move_score(s, white_to_move, m2, hash_move, ply),
        spec_piece_type(m1.capture as int) == spec_piece_type(m2.capture as int) && spec_piece_type(m1.piece as int) < spec_piece_type(
            m2.piece as int) ==> move_score(s, white_to_move, m1, hash_move, ply) > move_score(s, white_to_move, m2, hash_move, ply),
{
    lemma_mvv_lva_value((m1.piece % 6) as int, (m1.capture % 6) as int);
    lemma_mvv_lva_value((m2.piece % 6) as int, (m2.capture % 6) as int);
}

} // verus!
