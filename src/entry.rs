use vstd::prelude::*;

verus! {

/// One slot of a pool: at most one value, and a counter that advances each
/// time the slot is filled.
pub struct PoolEntry<T> {
    pub generation: usize,
    pub data: Option<T>,
}

impl<T> PoolEntry<T> {
    /// The state of a slot that has never been filled.
    pub open spec fn fresh() -> Self {
        PoolEntry { generation: 0, data: None }
    }

    pub fn new() -> (r: Self)
        ensures
            r == Self::fresh(),
    {
        PoolEntry { generation: 0, data: None }
    }

    /// Stores `value` and advances the generation, which is returned.
    pub fn set(&mut self, value: T) -> (r: usize)
        requires
            old(self).generation < usize::MAX,
        ensures
            r == old(self).generation + 1,
            *final(self) == (PoolEntry { generation: r, data: Some(value) }),
    {
        self.data = Some(value);
        self.generation = self.generation + 1;
        self.generation
    }

    pub fn get(&self) -> (r: Option<&T>)
        ensures
            r is Some <==> self.data is Some,
            r is Some ==> *r.unwrap() == self.data.unwrap(),
    {
        match &self.data {
            Some(data) => Some(data),
            None => None,
        }
    }

    /// A mutable reference to the value, if there is one; the generation is
    /// left as it is.
    pub fn get_mut(&mut self) -> (r: Option<&mut T>)
        ensures
            r is Some <==> old(self).data is Some,
            r is None ==> *final(self) == *old(self),
            r is Some ==> *r.unwrap() == old(self).data.unwrap() && *final(self) == (PoolEntry {
                generation: old(self).generation,
                data: Some(*final(r.unwrap())),
            }),
    {
        match &mut self.data {
            Some(data) => Some(data),
            None => None,
        }
    }

    /// Drops the value, if any, and keeps the generation.
    pub fn clear(&mut self)
        ensures
            *final(self) == (PoolEntry::<T> { generation: old(self).generation, data: None }),
    {
        self.data = None;
    }

    pub fn is_empty(&self) -> (r: bool)
        ensures
            r <==> self.data is None,
    {
        self.data.is_none()
    }

    /// Moves the value out, if any, and keeps the generation.
    pub fn take(&mut self) -> (r: Option<T>)
        ensures
            r == old(self).data,
            *final(self) == (PoolEntry::<T> { generation: old(self).generation, data: None }),
    {
        self.data.take()
    }
}

impl<T> Default for PoolEntry<T> {
    fn default() -> (r: Self)
        ensures
            r == PoolEntry::<T>::fresh(),
    {
        PoolEntry::new()
    }
}

} // verus!
