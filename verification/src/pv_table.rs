//! The triangular table of principal variations: row `d` holds the best line
//! found from ply `d`, starting at column `d`.
use vstd::prelude::*;
use crate::move_data::{MoveData, null_move, spec_null_move};
use crate::move_sorter::MAX_SORT_MOVE_PLY;

verus! {

pub struct PVTable {
    pub length: [usize; 32],
    pub table: [[MoveData; 32]; 32],
}

impl PVTable {
    /// Every recorded line ends within the table.
    pub open spec fn wf(&self) -> bool {
        forall|d: int| 0 <= d < 32 ==> #[trigger] self.length@[d] <= 32
    }

    pub fn new() -> (r: Self)
        ensures
            r.wf(),
            forall|d: int| 0 <= d < 32 ==> #[trigger] r.length@[d] == 0,
            forall|d: int, e: int| 0 <= d < 32 && 0 <= e < 32 ==> #[trigger] r.table@[d]@[e]
                == spec_null_move(),
    {
        let n = null_move();
        PVTable { length: [0usize; 32], table: [[n; 32]; 32] }
    }

    /// Starts a line of length `depth` at ply `depth` (an empty line), when the
    /// ply is inside the table.
    pub fn set_pv_length(&mut self, depth: usize)
        requires
            old(self).wf(),
        ensures
            final(self).wf(),
            final(self).table == old(self).table,
            depth < MAX_SORT_MOVE_PLY ==> final(self).length@ == old(self).length@.update(
                depth as int,
                depth,
            ),
            depth >= MAX_SORT_MOVE_PLY ==> final(self).length == old(self).length,
    {
        if depth < MAX_SORT_MOVE_PLY {
            self.length[depth] = depth;
        }
    }

    /// Records `data` as the best move at ply `depth`, followed by the line
    /// found one ply deeper.
    pub fn push_pv_move(&mut self, data: MoveData, depth: usize)
        requires
            old(self).wf(),
            depth < usize::MAX,
        ensures
            final(self).wf(),
            depth + 1 >= MAX_SORT_MOVE_PLY ==> *final(self) == *old(self),
            depth + 1 < MAX_SORT_MOVE_PLY ==> {
                &&& final(self).length@ == old(self).length@.update(
                    depth as int,
                    old(self).length@[depth + 1],
                )
                &&& final(self).table@[depth as int]@[depth as int] == data
                &&& forall|e: int|
                    depth + 1 <= e < old(self).length@[depth + 1] ==> #[trigger] final(self).table@[depth as int]@[e] == old(self).table@[depth + 1]@[e]
                &&& forall|e: int|
                    0 <= e < 32 && e != depth && !(depth + 1 <= e < old(self).length@[depth + 1])
                        ==> #[trigger] final(self).table@[depth as int]@[e] == old(self).table@[depth as int]@[e]
                &&& forall|d: int| 0 <= d < 32 && d != depth ==> #[trigger] final(self).table@[d]
                    == old(self).table@[d]
            },
    {
        if depth + 1 < MAX_SORT_MOVE_PLY {
            let mut row = self.table[depth];
            row[depth] = data;
            let next_row = self.table[depth + 1];
            let end = self.length[depth + 1];
            let mut next_depth = depth + 1;
            while next_depth < end
                invariant
                    depth + 1 < 32,
                    end <= 32,
                    depth + 1 <= next_depth,
                    next_depth <= end || end < depth + 1,
                    end < depth + 1 ==> next_depth == depth + 1,
                    row@.len() == 32,
                    row@[depth as int] == data,
                    next_row == old(self).table@[depth + 1],
                    forall|e: int| depth + 1 <= e < next_depth ==> #[trigger] row@[e]
                        == next_row@[e],
                    forall|e: int|
                        0 <= e < 32 && e != depth && !(depth + 1 <= e < next_depth) ==> #[trigger] row@[e]
                            == old(self).table@[depth as int]@[e],
                decreases end - next_depth,
            {
                row[next_depth] = next_row[next_depth];
                next_depth = next_depth + 1;
            }
            self.table[depth] = row;
            self.length[depth] = end;
            proof {
                assert forall|d: int| 0 <= d < 32 && d != depth implies #[trigger] self.table@[d]
                    == old(self).table@[d] by {
                    assert(self.table@[d] == old(self).table@[d]);
                }
            }
        }
    }

    /// Drops the first move of the root line, shifting the rest forward.
    pub fn pop(&mut self)
        requires
            old(self).wf(),
            old(self).length@[0] >= 1,
        ensures
            final(self).wf(),
            final(self).length@ == old(self).length@.update(0, (old(self).length@[0] - 1) as usize),
            final(self).table@[0]@ == old(self).table@[0]@.subrange(1, 32).push(spec_null_move()),
            forall|d: int| 1 <= d < 32 ==> #[trigger] final(self).table@[d] == old(self).table@[d],
    {
        let mut row = self.table[0];
        row[0] = null_move();
        let first = row[0];
        let mut k: usize = 0;
        while k < 31
            invariant
                k <= 31,
                row@.len() == 32,
                first == spec_null_move(),
                forall|e: int| 0 <= e < k ==> #[trigger] row@[e] == old(self).table@[0]@[e + 1],
                forall|e: int| k < e < 32 ==> #[trigger] row@[e] == old(self).table@[0]@[e],
                k == 0 ==> row@[0] == first,
                k > 0 ==> row@[k as int] == old(self).table@[0]@[k as int],
            decreases 31 - k,
        {
            let next = row[k + 1];
            row[k] = next;
            k = k + 1;
        }
        row[31] = first;
        proof {
            assert(row@ =~= old(self).table@[0]@.subrange(1, 32).push(spec_null_move()));
        }
        self.table[0] = row;
        self.length[0] = self.length[0] - 1;
    }

    pub fn get_pv_move(&self, depth: usize) -> (r: MoveData)
        requires
            depth < 32,
        ensures
            r == self.table@[depth as int]@[depth as int],
    {
        self.table[depth][depth]
    }
}

} // verus!
