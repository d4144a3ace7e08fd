//! A list of `(score, move)` pairs from which moves are selected best-first.
use vstd::prelude::*;
use crate::move_data::MoveData;

verus! {

pub struct ScoredMoveList {
    pub pairs: Vec<(i32, MoveData)>,
}

/// `k` holds the first highest score among the pairs from index `from` on.
pub open spec fn is_first_max_from(s: Seq<(i32, MoveData)>, from: int, k: int) -> bool {
    &&& from <= k < s.len()
    &&& forall|j: int| from <= j < s.len() ==> s[j].0 <= s[k].0
    &&& forall|j: int| from <= j < k ==> s[j].0 < s[k].0
}

proof fn lemma_swap_multiset<A>(s: Seq<A>, i: int, j: int)
    requires
        0 <= i < s.len(),
        0 <= j < s.len(),
    ensures
        s.update(i, s[j]).update(j, s[i]).to_multiset() =~= s.to_multiset(),
{
    let a = s[i];
    let b = s[j];
    let s1 = s.update(i, b);
    vstd::seq_lib::to_multiset_update(s, i, b);
    vstd::seq_lib::to_multiset_update(s1, j, a);
    if i == j {
        assert(s.update(i, s[j]).update(j, s[i]) =~= s);
    } else {
        assert(s1[j] == b);
        let m = s.to_multiset();
        assert(s.contains(a));
        assert(s1.contains(b));
        assert(m.insert(b).remove(a).insert(a).remove(b) =~= m) by {
            broadcast use vstd::seq_lib::group_to_multiset_ensures;
            assert(m.count(a) > 0);
        }
    }
}

impl ScoredMoveList {
    pub fn new() -> (r: Self)
        ensures
            r.pairs@.len() == 0,
    {
        ScoredMoveList { pairs: Vec::new() }
    }

    pub fn len(&self) -> (r: usize)
        ensures
            r == self.pairs@.len(),
    {
        self.pairs.len()
    }

    pub fn push(&mut self, score: i32, move_data: MoveData)
        ensures
            final(self).pairs@ == old(self).pairs@.push((score, move_data)),
    {
        self.pairs.push((score, move_data));
    }

    /// Brings the first best-scored pair from `move_index` on to `move_index`
    /// (by swaps, so the pairs stay the same as a whole) and returns its move.
    pub fn get(&mut self, move_index: usize) -> (r: MoveData)
        requires
            move_index < old(self).pairs@.len(),
        ensures
            final(self).pairs@.len() == old(self).pairs@.len(),
            final(self).pairs@.to_multiset() == old(self).pairs@.to_multiset(),
            forall|j: int| 0 <= j < move_index ==> final(self).pairs@[j] == old(self).pairs@[j],
            exists|k: int|
                is_first_max_from(old(self).pairs@, move_index as int, k)
                    && final(self).pairs@[move_index as int] == old(self).pairs@[k],
            r == final(self).pairs@[move_index as int].1,
    {
        let ghost orig = self.pairs@;
        let ghost mut k: int = move_index as int;
        let n = self.pairs.len();
        let mut i: usize = move_index + 1;
        while i < n
            invariant
                n == self.pairs@.len(),
                n == orig.len(),
                move_index < i <= n,
                move_index <= k < i,
                self.pairs@[move_index as int] == orig[k],
                forall|j: int| move_index <= j < i ==> orig[j].0 <= orig[k].0,
                forall|j: int| move_index <= j < k ==> orig[j].0 < orig[k].0,
                forall|j: int| i <= j < n ==> self.pairs@[j] == orig[j],
                forall|j: int| 0 <= j < move_index ==> self.pairs@[j] == orig[j],
                self.pairs@.to_multiset() == orig.to_multiset(),
            decreases n - i,
        {
            if self.pairs[i].0 > self.pairs[move_index].0 {
                let a = self.pairs[move_index];
                let b = self.pairs[i];
                proof {
                    lemma_swap_multiset(self.pairs@, move_index as int, i as int);
                    k = i as int;
                }
                self.pairs[move_index] = b;
                self.pairs[i] = a;
            }
            i = i + 1;
        }
        self.pairs[move_index].1
    }
}

} // verus!
