//! The transposition table: search results keyed by Zobrist hash.
use vstd::prelude::*;
use std::collections::HashMap;
use crate::move_data::MoveData;

verus! {

broadcast use {
    vstd::std_specs::hash::group_hash_axioms,
    vstd::std_specs::hash::axiom_spec_keys_iter,
};

#[derive(Copy, Clone, PartialEq, Eq, Debug, Structural)]
pub enum NodeType {
    UpperBound,
    LowerBound,
    Exact,
}

#[derive(Copy, Clone)]
pub struct TranspositionData {
    pub depth: u8,
    pub evaluation: i32,
    pub best_move: MoveData,
    pub age: u8,
    pub node_type: NodeType,
}

/// How many `update` rounds an entry survives without being used.
pub const MAX_AGE: u8 = 10;

pub struct TranspositionTable {
    pub table: HashMap<u64, TranspositionData>,
}

/// A stored result answers a probe at `depth` with window `(alpha, beta)`:
/// it was searched at least as deep, and its bound decides the window.
pub open spec fn answers_probe(d: TranspositionData, depth: u8, alpha: i32, beta: i32) -> bool {
    d.depth >= depth && match d.node_type {
        NodeType::UpperBound => d.evaluation <= alpha,
        NodeType::LowerBound => d.evaluation >= beta,
        NodeType::Exact => true,
    }
}

/// The entry stored for `key` is kept against a new result of `depth` and
/// `node_type`: it is exact and deeper, and the new result is only a bound.
pub open spec fn keeps_stored(m: Map<u64, TranspositionData>, key: u64, depth: u8, node_type: NodeType) -> bool {
    &&& m.contains_key(key)
    &&& m[key].depth > depth
    &&& m[key].node_type == NodeType::Exact
    &&& node_type != NodeType::Exact
}

pub open spec fn with_age(d: TranspositionData, age: u8) -> TranspositionData {
    TranspositionData { age, ..d }
}

/// The table after one ageing round: every entry grows one older, and entries
/// older than `MAX_AGE` are dropped.
pub open spec fn aged(m: Map<u64, TranspositionData>) -> Map<u64, TranspositionData> {
    Map::new(
        |k: u64| m.contains_key(k) && m[k].age + 1 <= MAX_AGE,
        |k: u64| with_age(m[k], (m[k].age + 1) as u8),
    )
}

impl TranspositionTable {
    /// No entry is older than `MAX_AGE`.
    pub open spec fn wf(&self) -> bool {
        forall|k: u64| #[trigger] self.table@.contains_key(k) ==> self.table@[k].age <= MAX_AGE
    }

    pub fn empty() -> (r: Self)
        ensures
            r.table@ == Map::<u64, TranspositionData>::empty(),
            r.wf(),
    {
        TranspositionTable { table: HashMap::new() }
    }

    /// Stores a search result under `key`. The replacement scheme prefers
    /// deeper and exact results: an entry already stored for `key` that is
    /// exact and deeper than the new result stays when the new result is only
    /// a bound; otherwise the new result (age 0) takes the key.
    pub fn store(&mut self, key: u64, depth: u8, evaluation: i32, best_move: MoveData, node_type: NodeType)
        requires
            old(self).wf(),
        ensures
            final(self).wf(),
            keeps_stored(old(self).table@, key, depth, node_type) ==> final(self).table@ == old(self).table@,
            !keeps_stored(old(self).table@, key, depth, node_type) ==> final(self).table@ == old(self).table@.insert(
                key,
                TranspositionData { depth, evaluation, best_move, age: 0, node_type },
            ),
    {
        let keep = match self.table.get(&key) {
            Some(d) => d.depth > depth && d.node_type == NodeType::Exact && node_type != NodeType::Exact,
            None => false,
        };
        if !keep {
            self.table.insert(key, TranspositionData { depth, evaluation, best_move, age: 0, node_type });
        }
    }

    /// Returns the stored result for `key` when it answers the probe, marking
    /// it as freshly used (age 0); otherwise `None`, leaving the table as it is.
    pub fn lookup(&mut self, key: u64, depth: u8, alpha: i32, beta: i32) -> (r: Option<TranspositionData>)
        requires
            old(self).wf(),
        ensures
            final(self).wf(),
            old(self).table@.contains_key(key) && answers_probe(old(self).table@[key], depth, alpha, beta) ==> {
                &&& r == Some(with_age(old(self).table@[key], 0))
                &&& final(self).table@ == old(self).table@.insert(key, with_age(old(self).table@[key], 0))
            },
            !(old(self).table@.contains_key(key) && answers_probe(old(self).table@[key], depth, alpha, beta)) ==> {
                &&& r == None::<TranspositionData>
                &&& final(self).table@ == old(self).table@
            },
    {
        let found = match self.table.get(&key) {
            Some(d) => Some(*d),
            None => None,
        };
        if let Some(data) = found {
            if data.depth >= depth {
                let hit = match data.node_type {
                    NodeType::UpperBound => data.evaluation <= alpha,
                    NodeType::LowerBound => data.evaluation >= beta,
                    NodeType::Exact => true,
                };
                if hit {
                    let fresh = TranspositionData { age: 0, ..data };
                    self.table.insert(key, fresh);
                    return Some(fresh);
                }
            }
        }
        None
    }

    /// Ages every entry by one round and drops the entries that grew too old.
    pub fn update(&mut self)
        requires
            old(self).wf(),
        ensures
            final(self).wf(),
            final(self).table@ == aged(old(self).table@),
    {
        let mut keys: Vec<u64> = Vec::new();
        for k in iter: self.table.keys()
            invariant
                keys@.len() == iter.index(),
                forall|i: int| 0 <= i < keys@.len() ==> keys@[i] == *iter.seq()[i],
        {
            keys.push(*k);
        }
        let ghost all_keys = vstd::std_specs::iter::IteratorSpec::remaining(&vstd::std_specs::hash::spec_keys_iter(&self.table)).unref();
        proof {
            assert(keys@ =~= all_keys);
        }
        let mut fresh: HashMap<u64, TranspositionData> = HashMap::new();
        let n = keys.len();
        let mut i: usize = 0;
        while i < n
            invariant
                n == keys@.len(),
                i <= n,
                self.wf(),
                keys@.to_set() == self.table@.dom(),
                keys@.no_duplicates(),
                forall|k: u64| #[trigger] fresh@.contains_key(k) <==> (keys@.subrange(0, i as int).contains(k)
                    && self.table@.contains_key(k) && self.table@[k].age + 1 <= MAX_AGE),
                forall|k: u64| #[trigger] fresh@.contains_key(k) ==> fresh@[k] == with_age(
                    self.table@[k],
                    (self.table@[k].age + 1) as u8,
                ),
            decreases n - i,
        {
            let key = keys[i];
            proof {
                assert(keys@.to_set().contains(key));
            }
            let data = *self.table.get(&key).unwrap();
            if data.age + 1 <= MAX_AGE {
                fresh.insert(key, TranspositionData { age: data.age + 1, ..data });
            }
            proof {
                assert forall|k: u64| #[trigger] fresh@.contains_key(k) <==> (keys@.subrange(0, i + 1).contains(k)
                    && self.table@.contains_key(k) && self.table@[k].age + 1 <= MAX_AGE) by {
                    if keys@.subrange(0, i + 1).contains(k) && k != key {
                        let j = choose|j: int| 0 <= j < i + 1 && #[trigger] keys@.subrange(0, i + 1)[j] == k;
                        assert(keys@.subrange(0, i as int)[j] == k);
                    }
                    if keys@.subrange(0, i as int).contains(k) {
                        let j = choose|j: int| 0 <= j < i && #[trigger] keys@.subrange(0, i as int)[j] == k;
                        assert(keys@.subrange(0, i + 1)[j] == k);
                    }
                    assert(keys@.subrange(0, i + 1)[i as int] == key);
                }
            }
            i = i + 1;
        }
        proof {
            assert(keys@.subrange(0, n as int) =~= keys@);
            assert forall|k: u64| keys@.contains(k) <==> self.table@.contains_key(k) by {
                assert(keys@.to_set().contains(k) == keys@.contains(k));
            }
            assert(fresh@ =~= aged(self.table@));
        }
        self.table = fresh;
    }
}

/// When a store takes the new result (the entry there is not kept, see
/// `keeps_stored`), a probe of that key finds it whenever it answers the
/// probe, and storing under one key keeps what every other key holds.
pub proof fn lemma_store_then_probe(
    table: Map<u64, TranspositionData>,
    key: u64,
    data: TranspositionData,
    other: u64,
    depth: u8,
    alpha: i32,
    beta: i32,
)
    requires
        !keeps_stored(table, key, data.depth, data.node_type),
        answers_probe(data, depth, alpha, beta),
    ensures
        table.insert(key, data).contains_key(key) && answers_probe(table.insert(key, data)[key], depth, alpha, beta),
        with_age(table.insert(key, data)[key], 0) == with_age(data, 0),
        other != key ==> (table.insert(key, data).contains_key(other) <==> table.contains_key(other)),
        other != key && table.contains_key(other) ==> table.insert(key, data)[other] == table[other],
{
}

} // verus!
