use vstd::prelude::*;

verus! {

/// A handle to a value stored in a pool: the slot it lives in and the
/// generation that slot had when the value was inserted.
///
/// Handles are plain values. A handle whose slot has since been emptied or
/// reused no longer matches: every lookup with it reports the value absent.
#[derive(Copy, Clone, Debug, Default, PartialEq, Eq, Hash, Structural)]
pub struct PoolKey {
    pub index: usize,
    pub generation: usize,
}

} // verus!
