use vstd::prelude::*;

use crate::entry::PoolEntry;
use crate::key::PoolKey;
use crate::state::{lemma_occupied_below_rank, occupied_below, overwrite_below, PoolState};

verus! {

/// A fixed-capacity container that hands out generational handles to the
/// values it stores.
///
/// Each operation is stated over the pool's abstract `state()`, and behaves
/// as the operation of the same name on `PoolState`.
pub trait Pool<T>: Sized {
    /// The abstract state of the pool.
    spec fn state(&self) -> PoolState<T>;

    /// The representation invariant, kept by every operation.
    spec fn inv(&self) -> bool;

    proof fn lemma_inv_wf(&self)
        requires
            self.inv(),
        ensures
            self.state().wf(),
    ;

    /// An empty pool of `capacity` slots, allocated once.
    fn new(capacity: usize) -> (r: Self)
        ensures
            r.inv(),
            r.state() == PoolState::<T>::empty(capacity),
    ;

    fn capacity(&self) -> (r: usize)
        requires
            self.inv(),
        ensures
            r == self.state().capacity(),
    ;

    /// Stores `value` in the most recently freed slot, or else in the lowest
    /// slot never filled, and returns its handle.
    fn insert(&mut self, value: T) -> (r: PoolKey)
        requires
            old(self).inv(),
            old(self).state().can_insert(),
        ensures
            final(self).inv(),
            r == old(self).state().insert_key(),
            final(self).state() == old(self).state().insert(value),
    ;

    /// The value that `key` matches, if any.
    fn get(&self, key: &PoolKey) -> (r: Option<&T>)
        requires
            self.inv(),
        ensures
            r is Some <==> self.state().holds(*key),
            r is Some ==> *r.unwrap() == self.state().get(*key).unwrap(),
    ;

    /// A mutable reference to the value that `key` matches, if any. What is
    /// written through it becomes the slot's value; nothing else changes.
    fn get_mut(&mut self, key: &PoolKey) -> (r: Option<&mut T>)
        requires
            old(self).inv(),
        ensures
            final(self).inv(),
            r is Some <==> old(self).state().holds(*key),
            r is None ==> final(self).state() == old(self).state(),
            r is Some ==> *r.unwrap() == old(self).state().get(*key).unwrap() && final(self).state()
                == old(self).state().write(*key, *final(r.unwrap())),
    ;

    /// Moves out the value that `key` matches, if any, and frees its slot.
    fn take(&mut self, key: &PoolKey) -> (r: Option<T>)
        requires
            old(self).inv(),
        ensures
            final(self).inv(),
            r == old(self).state().get(*key),
            final(self).state() == old(self).state().remove(*key),
    ;

    /// Drops the value that `key` matches, if any, and frees its slot.
    fn delete(&mut self, key: &PoolKey)
        requires
            old(self).inv(),
        ensures
            final(self).inv(),
            final(self).state() == old(self).state().remove(*key),
    ;

    /// Drops every value; slot generations are kept.
    fn clear(&mut self)
        requires
            old(self).inv(),
        ensures
            final(self).inv(),
            final(self).state() == old(self).state().clear(),
    ;
}

/// Why an insertion could not be made.
#[derive(Clone, Copy, Debug, PartialEq, Eq, Structural)]
pub enum PoolError {
    /// Every slot holds a value.
    CapacityExhausted,
    /// The slot to fill has reached the largest generation a handle can carry.
    GenerationExhausted,
}

/// A pool backed by a vector of slots, allocated once at construction.
///
/// `free` is a stack of emptied slot indices, `next` the lowest index not
/// filled since construction or the last clear, and `count` the number of
/// values held.
pub struct ObjectPool<T> {
    pub count: usize,
    pub next: usize,
    pub free: Vec<usize>,
    pub data: Vec<PoolEntry<T>>,
}

impl<T> Pool<T> for ObjectPool<T> {
    open spec fn state(&self) -> PoolState<T> {
        PoolState { slots: self.data@, free: self.free@, next: self.next, count: self.count }
    }

    open spec fn inv(&self) -> bool {
        self.state().wf()
    }

    proof fn lemma_inv_wf(&self) {
    }

    fn new(capacity: usize) -> (r: Self) {
        let mut data: Vec<PoolEntry<T>> = Vec::with_capacity(capacity);
        let mut i: usize = 0;
        while i < capacity
            invariant
                i <= capacity,
                data@ == Seq::new(i as nat, |j: int| PoolEntry::<T>::fresh()),
            decreases capacity - i,
        {
            data.push(PoolEntry::new());
            i = i + 1;
            assert(data@ =~= Seq::new(i as nat, |j: int| PoolEntry::<T>::fresh()));
        }
        let r = ObjectPool { count: 0, next: 0, free: Vec::new(), data };
        proof {
            assert(r.state().slots =~= PoolState::<T>::empty(capacity).slots);
            assert(r.state().free =~= PoolState::<T>::empty(capacity).free);
            PoolState::<T>::lemma_empty_wf(capacity);
        }
        r
    }

    fn capacity(&self) -> (r: usize) {
        self.data.len()
    }

    fn insert(&mut self, value: T) -> (r: PoolKey) {
        proof {
            old(self).state().lemma_insert_wf(value);
        }
        let index = if let Some(index) = self.free.pop() {
            index
        } else {
            let index = self.next;
            self.next = self.next + 1;
            index
        };
        let generation = self.data[index].set(value);
        self.count = self.count + 1;
        proof {
            let expected = old(self).state().insert(value);
            assert(self.state().slots =~= expected.slots);
            assert(self.state().free =~= expected.free);
        }
        PoolKey { index, generation }
    }

    fn get(&self, key: &PoolKey) -> (r: Option<&T>) {
        if key.index >= self.data.len() {
            return None;
        }
        let entry = &self.data[key.index];
        if entry.generation != key.generation {
            None
        } else {
            entry.get()
        }
    }

    fn get_mut(&mut self, key: &PoolKey) -> (r: Option<&mut T>) {
        if key.index >= self.data.len() {
            return None;
        }
        let entry = &self.data[key.index];
        if entry.generation != key.generation || entry.is_empty() {
            return None;
        }
        let r = self.data[key.index].get_mut();
        proof {
            old(self).state().lemma_write_wf(*key, *final(r.unwrap()));
        }
        r
    }

    fn take(&mut self, key: &PoolKey) -> (r: Option<T>) {
        proof {
            old(self).state().lemma_remove_wf(*key);
        }
        if key.index >= self.data.len() {
            return None;
        }
        let entry = &self.data[key.index];
        if entry.generation != key.generation || entry.is_empty() {
            return None;
        }
        self.count = self.count - 1;
        self.free.push(key.index);
        let r = self.data[key.index].take();
        proof {
            let expected = old(self).state().remove(*key);
            assert(self.state().slots =~= expected.slots);
        }
        r
    }

    fn delete(&mut self, key: &PoolKey) {
        proof {
            old(self).state().lemma_remove_wf(*key);
        }
        if key.index >= self.data.len() {
            return;
        }
        let entry = &self.data[key.index];
        if entry.generation != key.generation || entry.is_empty() {
            return;
        }
        self.data[key.index].clear();
        self.count = self.count - 1;
        self.free.push(key.index);
        proof {
            let expected = old(self).state().remove(*key);
            assert(self.state().slots =~= expected.slots);
        }
    }

    fn clear(&mut self) {
        proof {
            old(self).state().lemma_clear_wf();
        }
        let mut i: usize = 0;
        while i < self.data.len()
            invariant
                i <= self.data.len(),
                self.data@.len() == old(self).data@.len(),
                forall|j: int|
                    0 <= j < i ==> #[trigger] self.data@[j] == (PoolEntry::<T> {
                        generation: old(self).data@[j].generation,
                        data: None,
                    }),
                forall|j: int|
                    i <= j < self.data@.len() ==> #[trigger] self.data@[j] == old(self).data@[j],
            decreases self.data.len() - i,
        {
            self.data[i].clear();
            i = i + 1;
        }
        self.free.clear();
        self.next = 0;
        self.count = 0;
        proof {
            let expected = old(self).state().clear();
            assert(self.state().slots =~= expected.slots);
            assert(self.state().free =~= expected.free);
        }
    }
}

impl<T> ObjectPool<T> {
    /// Inserts `value` where the pool can take it, and otherwise reports why
    /// not and leaves the pool as it was.
    pub fn try_insert(&mut self, value: T) -> (r: Result<PoolKey, PoolError>)
        requires
            old(self).inv(),
        ensures
            final(self).inv(),
            r is Ok <==> old(self).state().can_insert(),
            r is Ok ==> r->Ok_0 == old(self).state().insert_key() && final(self).state() == old(
                self,
            ).state().insert(value),
            r is Err ==> final(self).state() == old(self).state(),
            r == Err::<PoolKey, PoolError>(PoolError::CapacityExhausted) <==> !old(
                self,
            ).state().has_room(),
            r == Err::<PoolKey, PoolError>(PoolError::GenerationExhausted) <==> old(
                self,
            ).state().has_room() && !old(self).state().can_insert(),
    {
        let index = if self.free.len() > 0 {
            self.free[self.free.len() - 1]
        } else if self.next < self.data.len() {
            self.next
        } else {
            return Err(PoolError::CapacityExhausted);
        };
        if self.data[index].generation == usize::MAX {
            return Err(PoolError::GenerationExhausted);
        }
        Ok(self.insert(value))
    }

    /// Mutable references to the values held, in ascending order of their
    /// slots. What is written through them becomes the slots' values.
    pub fn iter_mut(&mut self) -> (r: Vec<&mut T>)
        requires
            old(self).inv(),
        ensures
            final(self).inv(),
            r@.len() == old(self).state().values().len(),
            forall|j: int| 0 <= j < r@.len() ==> *r@[j] == old(self).state().values()[j],
            final(self).state() == old(self).state().write_all(
                r@.map_values(|x: &mut T| *final(x)),
            ),
    {
        let mut out: Vec<&mut T> = Vec::new();
        let mut rest: &mut [PoolEntry<T>] = self.data.as_mut_slice();
        let ghost base = rest@;
        let ghost whole = final(rest)@;
        let ghost mut i: int = 0;
        while rest.len() > 0
            invariant
                0 <= i <= base.len(),
                rest@ == base.subrange(i, base.len() as int),
                out@.len() == occupied_below(base, i).len(),
                forall|j: int|
                    0 <= j < out@.len() ==> *out@[j] == base[occupied_below(
                        base,
                        i,
                    )[j]].data.unwrap(),
                whole.len() == i + final(rest)@.len(),
                forall|k: int|
                    0 <= k < i ==> whole[k] == overwrite_below(
                        base,
                        i,
                        out@.map_values(|x: &mut T| *final(x)),
                    )[k],
                forall|k: int| 0 <= k < final(rest)@.len() ==> whole[i + k] == final(rest)@[k],
            decreases rest@.len(),
        {
            let ghost cur_final = final(rest)@;
            let ghost old_out = out@;
            let cur = rest;
            let (head, tail) = cur.split_at_mut(1);
            let ghost head_final = final(head)@;
            proof {
                assert(cur_final == head_final + final(tail)@);
            }
            rest = tail;
            match head.first_mut() {
                Some(entry) => {
                    let ghost entry_final = *final(entry);
                    match entry.get_mut() {
                        Some(value) => {
                            let ghost value_final = *final(value);
                            out.push(value);
                            proof {
                                assert(*final(out@[old_out.len() as int]) == value_final);
                                assert(entry_final == PoolEntry {
                                    generation: base[i].generation,
                                    data: Some(value_final),
                                });
                            }
                        },
                        None => {
                            assert(entry_final == base[i]);
                        },
                    }
                    assert(head_final[0] == entry_final);
                },
                None => {},
            }
            proof {
                assert(whole[i] == cur_final[0]);
                let vals_old = old_out.map_values(|x: &mut T| *final(x));
                let vals = out@.map_values(|x: &mut T| *final(x));
                assert forall|k: int| 0 <= k < i + 1 implies whole[k] == overwrite_below(
                    base,
                    i + 1,
                    vals,
                )[k] by {
                    if k < i {
                        assert(whole[k] == overwrite_below(base, i, vals_old)[k]);
                        if base[k].data is Some {
                            lemma_occupied_below_rank(base, k, i);
                            let rank = occupied_below(base, k).len() as int;
                            assert(vals[rank] == vals_old[rank]);
                        }
                    }
                }
                let rest_final = final(rest)@;
                assert forall|k: int| 0 <= k < rest_final.len() implies whole[i + 1 + k]
                    == rest_final[k] by {
                    assert(whole[i + (1 + k)] == cur_final[1 + k]);
                }
                i = i + 1;
            }
        }
        proof {
            assert(whole =~= overwrite_below(
                base,
                base.len() as int,
                out@.map_values(|x: &mut T| *final(x)),
            ));
            old(self).state().lemma_write_all_wf(out@.map_values(|x: &mut T| *final(x)));
        }
        out
    }

    /// References to the values held, in ascending order of their slots.
    pub fn iter(&self) -> (r: Vec<&T>)
        ensures
            r@.len() == self.state().values().len(),
            forall|j: int| 0 <= j < r@.len() ==> *r@[j] == self.state().values()[j],
    {
        let mut out: Vec<&T> = Vec::new();
        let mut i: usize = 0;
        while i < self.data.len()
            invariant
                i <= self.data.len(),
                out@.len() == occupied_below(self.data@, i as int).len(),
                forall|j: int|
                    0 <= j < out@.len() ==> *out@[j] == self.data@[occupied_below(
                        self.data@,
                        i as int,
                    )[j]].data.unwrap(),
            decreases self.data.len() - i,
        {
            if let Some(value) = self.data[i].get() {
                out.push(value);
            }
            i = i + 1;
        }
        out
    }
}

} // verus!
