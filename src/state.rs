use vstd::prelude::*;

use crate::entry::PoolEntry;
use crate::key::PoolKey;

verus! {

/// The indices below `n` whose slot holds a value, in ascending order.
pub open spec fn occupied_below<T>(slots: Seq<PoolEntry<T>>, n: int) -> Seq<int>
    decreases n,
{
    if n <= 0 {
        Seq::empty()
    } else {
        let below = occupied_below(slots, n - 1);
        if slots[n - 1].data is Some {
            below.push(n - 1)
        } else {
            below
        }
    }
}

/// The first `n` slots, where the value of each slot that holds one is
/// replaced by the next of `vals`, in ascending order of slots.
pub open spec fn overwrite_below<T>(slots: Seq<PoolEntry<T>>, n: int, vals: Seq<T>) -> Seq<
    PoolEntry<T>,
> {
    Seq::new(
        n as nat,
        |i: int|
            if slots[i].data is Some {
                PoolEntry {
                    generation: slots[i].generation,
                    data: Some(vals[occupied_below(slots, i).len() as int]),
                }
            } else {
                slots[i]
            },
    )
}

/// Fewer slots below `k` than below `n` hold a value, when slot `k` holds one.
pub proof fn lemma_occupied_below_rank<T>(slots: Seq<PoolEntry<T>>, k: int, n: int)
    requires
        0 <= k < n <= slots.len(),
        slots[k].data is Some,
    ensures
        occupied_below(slots, k).len() < occupied_below(slots, n).len(),
    decreases n,
{
    if n - 1 > k {
        lemma_occupied_below_rank(slots, k, n - 1);
    }
}

/// Slots that hold values in the same places have the same occupied indices.
pub proof fn lemma_occupied_below_same<T>(a: Seq<PoolEntry<T>>, b: Seq<PoolEntry<T>>, n: int)
    requires
        n <= a.len() == b.len(),
        forall|i: int| 0 <= i < a.len() ==> (#[trigger] a[i].data is Some) == (b[i].data is Some),
    ensures
        occupied_below(a, n) == occupied_below(b, n),
    decreases n,
{
    if n > 0 {
        lemma_occupied_below_same(a, b, n - 1);
    }
}

/// Changing slot `i` changes the occupied indices below `n` by that slot alone.
pub proof fn lemma_occupied_below_update<T>(
    slots: Seq<PoolEntry<T>>,
    i: int,
    e: PoolEntry<T>,
    n: int,
)
    requires
        0 <= i < slots.len(),
        n <= slots.len(),
    ensures
        n <= i || (e.data is Some) == (slots[i].data is Some) ==> occupied_below(
            slots.update(i, e),
            n,
        ) == occupied_below(slots, n),
        i < n && slots[i].data is None && e.data is Some ==> occupied_below(
            slots.update(i, e),
            n,
        ).len() == occupied_below(slots, n).len() + 1,
        i < n && slots[i].data is Some && e.data is None ==> occupied_below(
            slots.update(i, e),
            n,
        ).len() + 1 == occupied_below(slots, n).len(),
    decreases n,
{
    if n > 0 {
        lemma_occupied_below_update(slots, i, e, n - 1);
    }
}

/// Below `n`, no slot holds a value: no index is occupied.
pub proof fn lemma_occupied_below_none<T>(slots: Seq<PoolEntry<T>>, n: int)
    requires
        n <= slots.len(),
        forall|i: int| 0 <= i < n ==> (#[trigger] slots[i]).data is None,
    ensures
        occupied_below(slots, n) == Seq::<int>::empty(),
    decreases n,
{
    if n > 0 {
        lemma_occupied_below_none(slots, n - 1);
    }
}

/// The occupied indices below `n` ascend strictly, and are exactly the slots
/// below `n` that hold a value.
pub proof fn lemma_occupied_below_exact<T>(slots: Seq<PoolEntry<T>>, n: int)
    requires
        0 <= n <= slots.len(),
    ensures
        forall|j: int|
            0 <= j < occupied_below(slots, n).len() ==> 0 <= #[trigger] occupied_below(slots, n)[j]
                < n && slots[occupied_below(slots, n)[j]].data is Some,
        forall|j: int, k: int|
            0 <= j < k < occupied_below(slots, n).len() ==> #[trigger] occupied_below(slots, n)[j]
                < #[trigger] occupied_below(slots, n)[k],
        forall|i: int|
            0 <= i < n && (#[trigger] slots[i]).data is Some ==> occupied_below(
                slots,
                n,
            ).contains(i),
    decreases n,
{
    if n > 0 {
        lemma_occupied_below_exact(slots, n - 1);
        let below = occupied_below(slots, n - 1);
        let occ = occupied_below(slots, n);
        assert forall|i: int| 0 <= i < n && (#[trigger] slots[i]).data is Some implies occ.contains(
            i,
        ) by {
            if i < n - 1 {
                let j = choose|j: int| 0 <= j < below.len() && below[j] == i;
                assert(occ[j] == i);
            } else {
                assert(occ[occ.len() - 1] == i);
            }
        }
    }
}

/// The abstract state of a pool: its slots, the stack of freed slot indices
/// (top last), the lowest index never filled since construction or the last
/// clear, and the number of values held.
pub struct PoolState<T> {
    pub slots: Seq<PoolEntry<T>>,
    pub free: Seq<usize>,
    pub next: usize,
    pub count: usize,
}

/// One state-changing operation of a pool, as seen on its state.
pub enum PoolOp<T> {
    /// An insertion; on a pool that cannot take it, nothing changes.
    Insert(T),
    /// A write through the reference that a lookup handed out.
    Write(PoolKey, T),
    /// Writes through the references that `iter_mut` handed out: the next
    /// value for each slot that holds one, in ascending order of slots.
    WriteAll(Seq<T>),
    /// A `take` or a `delete`.
    Remove(PoolKey),
    Clear,
}

impl<T> PoolOp<T> {
    /// The operation can empty the slot that `key` matches, or change its value.
    pub open spec fn affects(self, key: PoolKey) -> bool {
        match self {
            PoolOp::Insert(_) => false,
            PoolOp::Write(k, _) => k == key,
            PoolOp::WriteAll(_) => true,
            PoolOp::Remove(k) => k == key,
            PoolOp::Clear => true,
        }
    }
}

impl<T> PoolState<T> {
    /// A pool of `capacity` slots that have never been filled.
    pub open spec fn empty(capacity: usize) -> Self {
        PoolState {
            slots: Seq::new(capacity as nat, |i: int| PoolEntry::<T>::fresh()),
            free: Seq::empty(),
            next: 0,
            count: 0,
        }
    }

    pub open spec fn capacity(self) -> nat {
        self.slots.len()
    }

    /// Indices of the slots that hold a value, ascending.
    pub open spec fn occupied(self) -> Seq<int> {
        occupied_below(self.slots, self.slots.len() as int)
    }

    /// The values held, in ascending order of their slots.
    pub open spec fn values(self) -> Seq<T> {
        self.occupied().map_values(|i: int| self.slots[i].data.unwrap())
    }

    /// The handle that matches slot `i` as it stands.
    pub open spec fn key_at(self, i: int) -> PoolKey {
        PoolKey { index: i as usize, generation: self.slots[i].generation }
    }

    /// The handles that currently match a value, in ascending order of slots.
    pub open spec fn live_keys(self) -> Seq<PoolKey> {
        self.occupied().map_values(|i: int| self.key_at(i))
    }

    pub open spec fn wf(self) -> bool {
        &&& self.slots.len() <= usize::MAX
        &&& self.next <= self.slots.len()
        &&& self.count == self.occupied().len()
        &&& self.count + self.free.len() == self.next
        &&& self.free.no_duplicates()
        &&& forall|j: int|
            0 <= j < self.free.len() ==> #[trigger] self.free[j] < self.next
                && self.slots[self.free[j] as int].data is None
        &&& forall|i: int|
            0 <= i < self.next && (#[trigger] self.slots[i]).data is None ==> self.free.contains(
                i as usize,
            )
        &&& forall|i: int|
            self.next <= i < self.slots.len() ==> (#[trigger] self.slots[i]).data is None
        &&& forall|i: int|
            0 <= i < self.slots.len() && (#[trigger] self.slots[i]).data is Some
                ==> self.slots[i].generation >= 1
    }

    /// A slot is free for the next insertion.
    pub open spec fn has_room(self) -> bool {
        self.free.len() > 0 || self.next < self.slots.len()
    }

    /// The slot that the next insertion fills: the most recently freed one,
    /// or else the lowest one never filled.
    pub open spec fn insert_index(self) -> usize {
        if self.free.len() > 0 {
            self.free.last()
        } else {
            self.next
        }
    }

    /// There is room, and the generation of the slot to fill can still advance.
    pub open spec fn can_insert(self) -> bool {
        &&& self.has_room()
        &&& self.slots[self.insert_index() as int].generation < usize::MAX
    }

    /// The handle that the next insertion returns.
    pub open spec fn insert_key(self) -> PoolKey {
        PoolKey {
            index: self.insert_index(),
            generation: (self.slots[self.insert_index() as int].generation + 1) as usize,
        }
    }

    pub open spec fn insert(self, value: T) -> Self {
        let key = self.insert_key();
        PoolState {
            slots: self.slots.update(
                key.index as int,
                PoolEntry { generation: key.generation, data: Some(value) },
            ),
            free: if self.free.len() > 0 {
                self.free.drop_last()
            } else {
                self.free
            },
            next: if self.free.len() > 0 {
                self.next
            } else {
                (self.next + 1) as usize
            },
            count: (self.count + 1) as usize,
        }
    }

    /// `key` matches a value: its slot exists, holds a value, and has the
    /// key's generation.
    pub open spec fn holds(self, key: PoolKey) -> bool {
        &&& key.index < self.slots.len()
        &&& self.slots[key.index as int].generation == key.generation
        &&& self.slots[key.index as int].data is Some
    }

    pub open spec fn get(self, key: PoolKey) -> Option<T> {
        if self.holds(key) {
            self.slots[key.index as int].data
        } else {
            None
        }
    }

    /// The state after `take(key)` or `delete(key)`.
    pub open spec fn remove(self, key: PoolKey) -> Self {
        if self.holds(key) {
            PoolState {
                slots: self.slots.update(
                    key.index as int,
                    PoolEntry { generation: key.generation, data: None },
                ),
                free: self.free.push(key.index),
                next: self.next,
                count: (self.count - 1) as usize,
            }
        } else {
            self
        }
    }

    /// The state after `value` was written through the reference that
    /// `get_mut(key)` handed out.
    pub open spec fn write(self, key: PoolKey, value: T) -> Self {
        if self.holds(key) {
            PoolState {
                slots: self.slots.update(
                    key.index as int,
                    PoolEntry { generation: key.generation, data: Some(value) },
                ),
                free: self.free,
                next: self.next,
                count: self.count,
            }
        } else {
            self
        }
    }

    /// The state after `values` were written, in order, through the
    /// references that `iter_mut` handed out.
    pub open spec fn write_all(self, values: Seq<T>) -> Self {
        PoolState {
            slots: overwrite_below(self.slots, self.slots.len() as int, values),
            free: self.free,
            next: self.next,
            count: self.count,
        }
    }

    pub open spec fn clear(self) -> Self {
        PoolState {
            slots: Seq::new(
                self.slots.len(),
                |i: int| PoolEntry::<T> { generation: self.slots[i].generation, data: None },
            ),
            free: Seq::empty(),
            next: 0,
            count: 0,
        }
    }

    /// `key` is one that this pool has handed out at some time: for each slot,
    /// the generations from 1 up to its current one.
    pub open spec fn issued(self, key: PoolKey) -> bool {
        &&& key.index < self.slots.len()
        &&& 1 <= key.generation <= self.slots[key.index as int].generation
    }

    pub open spec fn apply(self, op: PoolOp<T>) -> Self {
        match op {
            PoolOp::Insert(value) => if self.can_insert() {
                self.insert(value)
            } else {
                self
            },
            PoolOp::Write(key, value) => self.write(key, value),
            PoolOp::WriteAll(values) => self.write_all(values),
            PoolOp::Remove(key) => self.remove(key),
            PoolOp::Clear => self.clear(),
        }
    }

    pub open spec fn run(self, ops: Seq<PoolOp<T>>) -> Self
        decreases ops.len(),
    {
        if ops.len() == 0 {
            self
        } else {
            self.apply(ops[0]).run(ops.drop_first())
        }
    }
    pub proof fn lemma_empty_wf(capacity: usize)
        ensures
            Self::empty(capacity).wf(),
    {
        let s = Self::empty(capacity);
        lemma_occupied_below_none(s.slots, s.slots.len() as int);
    }

    pub proof fn lemma_insert_wf(self, value: T)
        requires
            self.wf(),
            self.can_insert(),
        ensures
            self.insert(value).wf(),
            self.insert(value).holds(self.insert_key()),
            self.slots[self.insert_index() as int].data is None,
    {
        let i = self.insert_index() as int;
        let t = self.insert(value);
        if self.free.len() > 0 {
            assert(self.free[self.free.len() - 1] == i);
        }
        assert(self.slots[i].data is None);
        lemma_occupied_below_update(
            self.slots,
            i,
            t.slots[i],
            self.slots.len() as int,
        );
        if self.free.len() > 0 {
            assert forall|a: int, b: int|
                0 <= a < t.free.len() && 0 <= b < t.free.len() && a != b implies t.free[a]
                != t.free[b] by {
                assert(t.free[a] == self.free[a] && t.free[b] == self.free[b]);
            }
            assert forall|j: int| 0 <= j < t.free.len() implies #[trigger] t.free[j] < t.next
                && t.slots[t.free[j] as int].data is None by {
                assert(t.free[j] == self.free[j]);
                assert(self.free[j] != self.free[self.free.len() - 1]);
            }
            assert forall|k: int|
                0 <= k < t.next && (#[trigger] t.slots[k]).data is None implies t.free.contains(
                k as usize,
            ) by {
                let j = choose|j: int| 0 <= j < self.free.len() && self.free[j] == k as usize;
                assert(j != self.free.len() - 1);
                assert(t.free[j] == k as usize);
            }
        }
    }

    pub proof fn lemma_remove_wf(self, key: PoolKey)
        requires
            self.wf(),
        ensures
            self.remove(key).wf(),
            !self.remove(key).holds(key),
    {
        if self.holds(key) {
            let i = key.index as int;
            let t = self.remove(key);
            lemma_occupied_below_update(
                self.slots,
                i,
                t.slots[i],
                self.slots.len() as int,
            );
            assert(!self.free.contains(key.index));
            assert forall|a: int, b: int|
                0 <= a < t.free.len() && 0 <= b < t.free.len() && a != b implies t.free[a]
                != t.free[b] by {
                if a < self.free.len() && b < self.free.len() {
                    assert(t.free[a] == self.free[a] && t.free[b] == self.free[b]);
                } else if a < self.free.len() {
                    assert(t.free[a] == self.free[a]);
                } else {
                    assert(t.free[b] == self.free[b]);
                }
            }
            assert forall|j: int| 0 <= j < t.free.len() implies #[trigger] t.free[j] < t.next
                && t.slots[t.free[j] as int].data is None by {
                if j < self.free.len() {
                    assert(t.free[j] == self.free[j]);
                }
            }
            assert forall|k: int|
                0 <= k < t.next && (#[trigger] t.slots[k]).data is None implies t.free.contains(
                k as usize,
            ) by {
                if k == i {
                    assert(t.free[self.free.len() as int] == key.index);
                } else {
                    assert(self.slots[k].data is None);
                    let j = choose|j: int| 0 <= j < self.free.len() && self.free[j] == k as usize;
                    assert(t.free[j] == k as usize);
                }
            }
        }
    }

    pub proof fn lemma_write_wf(self, key: PoolKey, value: T)
        requires
            self.wf(),
        ensures
            self.write(key, value).wf(),
    {
        if self.holds(key) {
            let t = self.write(key, value);
            lemma_occupied_below_update(
                self.slots,
                key.index as int,
                t.slots[key.index as int],
                self.slots.len() as int,
            );
            assert forall|k: int|
                0 <= k < t.next && (#[trigger] t.slots[k]).data is None implies t.free.contains(
                k as usize,
            ) by {
                assert(self.slots[k].data is None);
            }
        }
    }

    pub proof fn lemma_write_all_wf(self, values: Seq<T>)
        requires
            self.wf(),
        ensures
            self.write_all(values).wf(),
    {
        let t = self.write_all(values);
        lemma_occupied_below_same(t.slots, self.slots, self.slots.len() as int);
        assert forall|k: int|
            0 <= k < t.next && (#[trigger] t.slots[k]).data is None implies t.free.contains(
            k as usize,
        ) by {
            assert(self.slots[k].data is None);
        }
    }

    pub proof fn lemma_clear_wf(self)
        requires
            self.wf(),
        ensures
            self.clear().wf(),
    {
        let t = self.clear();
        lemma_occupied_below_none(t.slots, t.slots.len() as int);
    }

    pub proof fn lemma_apply_wf(self, op: PoolOp<T>)
        requires
            self.wf(),
        ensures
            self.apply(op).wf(),
            self.apply(op).capacity() == self.capacity(),
    {
        match op {
            PoolOp::Insert(value) => {
                if self.can_insert() {
                    self.lemma_insert_wf(value);
                }
            },
            PoolOp::Write(key, value) => self.lemma_write_wf(key, value),
            PoolOp::WriteAll(values) => self.lemma_write_all_wf(values),
            PoolOp::Remove(key) => self.lemma_remove_wf(key),
            PoolOp::Clear => self.lemma_clear_wf(),
        }
    }

    pub proof fn lemma_run_wf(self, ops: Seq<PoolOp<T>>)
        requires
            self.wf(),
        ensures
            self.run(ops).wf(),
            self.run(ops).capacity() == self.capacity(),
        decreases ops.len(),
    {
        if ops.len() > 0 {
            self.lemma_apply_wf(ops[0]);
            self.apply(ops[0]).lemma_run_wf(ops.drop_first());
        }
    }
}

} // verus!
