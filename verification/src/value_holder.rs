//! A value with an undo history: `push` records the current value one level
//! deeper, `pop` steps back one level and restores the value recorded there.
use vstd::prelude::*;

verus! {

pub struct ValueHolder<T: Copy> {
    pub current: T,
    pub index: usize,
    pub history: Vec<T>,
}

/// What a holder is: its current value, its depth, and the recorded values.
pub open spec fn holder_model<T: Copy>(h: &ValueHolder<T>) -> (T, int, Seq<T>) {
    (h.current, h.index as int, h.history@)
}

/// The effect of `push` on a holder's model.
pub open spec fn model_push<T>(m: (T, int, Seq<T>)) -> (T, int, Seq<T>) {
    let i = m.1 + 1;
    (m.0, i, if i >= m.2.len() { m.2.push(m.0) } else { m.2.update(i, m.0) })
}

/// The effect of `pop` on a holder's model.
pub open spec fn model_pop<T>(m: (T, int, Seq<T>)) -> (T, int, Seq<T>) {
    (m.2[m.1 - 1], m.1 - 1, m.2)
}

/// A model whose depth lies within its history and whose history is not empty.
pub open spec fn model_wf<T>(m: (T, int, Seq<T>)) -> bool {
    1 <= m.2.len() && 0 <= m.1 <= m.2.len()
}

/// The value at the current depth is the current value.
pub open spec fn model_synced<T>(m: (T, int, Seq<T>)) -> bool {
    0 <= m.1 < m.2.len() && m.2[m.1] == m.0
}

impl<T: Copy> ValueHolder<T> {
    pub open spec fn wf(&self) -> bool {
        model_wf(holder_model(self))
    }

    pub fn new(current: T) -> (r: Self)
        ensures
            r.current == current,
            r.index == 0,
            r.history@ == seq![current],
            r.wf(),
            model_synced(holder_model(&r)),
    {
        let mut history = Vec::new();
        history.push(current);
        ValueHolder { current, index: 0, history }
    }

    pub fn push(&mut self)
        requires
            old(self).wf(),
            old(self).index < usize::MAX,
        ensures
            final(self).wf(),
            holder_model(final(self)) == model_push(holder_model(old(self))),
            old(self).index < old(self).history.len() ==> model_synced(holder_model(final(self))),
    {
        self.index = self.index + 1;
        if self.index >= self.history.len() {
            let c = self.current;
            self.history.push(c);
        } else {
            let c = self.current;
            let i = self.index;
            self.history.set(i, c);
        }
    }

    pub fn pop(&mut self)
        requires
            old(self).wf(),
            old(self).index >= 1,
        ensures
            final(self).wf(),
            holder_model(final(self)) == model_pop(holder_model(old(self))),
            model_synced(holder_model(final(self))),
    {
        self.index = self.index - 1;
        self.current = self.history[self.index];
    }

    pub fn clear(&mut self)
        requires
            old(self).history@.len() > 0,
        ensures
            final(self).wf(),
            final(self).index == 1,
            final(self).current == old(self).history@[0],
            final(self).history@ == seq![old(self).history@[0]],
    {
        self.index = 0;
        self.current = self.history[0];
        self.history.clear();
        // Step one level deeper and record the current value there.
        self.index = 1;
        let c = self.current;
        self.history.push(c);
    }
}

/// Pushing, then changing the current value in any way, then popping restores
/// the current value and the depth that the holder had before the push, and
/// leaves the recorded values up to that depth as they were.
pub proof fn lemma_push_pop_restores<T>(m: (T, int, Seq<T>), changed: T)
    requires
        model_wf(m),
        model_synced(m),
    ensures
        ({
            let pushed = model_push(m);
            let after = model_pop((changed, pushed.1, pushed.2));
            &&& after.0 == m.0
            &&& after.1 == m.1
            &&& after.2.len() >= m.2.len()
            &&& forall|k: int| 0 <= k <= m.1 ==> after.2[k] == m.2[k]
        }),
{
}

} // verus!
