use vstd::prelude::*;

pub mod entry;
pub mod key;
pub mod laws;
pub mod pool;
pub mod state;

pub use entry::PoolEntry;
pub use key::PoolKey;
pub use pool::{ObjectPool, Pool, PoolError};
pub use state::{PoolOp, PoolState};

verus! {

/// An empty pool of `capacity` slots, of the default kind.
pub fn create_default_pool<T>(capacity: usize) -> (r: impl Pool<T>)
    ensures
        r.inv(),
        r.state() == PoolState::<T>::empty(capacity),
{
    ObjectPool::new(capacity)
}

} // verus!
