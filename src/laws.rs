use vstd::prelude::*;

use crate::key::PoolKey;
use crate::state::{lemma_occupied_below_exact, PoolOp, PoolState};

verus! {

/// No operation shrinks the pool or lowers a slot's generation.
proof fn lemma_apply_generations<T>(s: PoolState<T>, op: PoolOp<T>)
    requires
        s.wf(),
    ensures
        s.apply(op).slots.len() == s.slots.len(),
        forall|i: int|
            0 <= i < s.slots.len() ==> s.slots[i].generation <= (
            #[trigger] s.apply(op).slots[i]).generation,
{
}

/// A handle once handed out stays among those handed out.
proof fn lemma_run_issued<T>(s: PoolState<T>, ops: Seq<PoolOp<T>>, key: PoolKey)
    requires
        s.wf(),
        s.issued(key),
    ensures
        s.run(ops).issued(key),
    decreases ops.len(),
{
    if ops.len() > 0 {
        lemma_apply_generations(s, ops[0]);
        assert(s.apply(ops[0]).slots[key.index as int].generation >= s.slots[key.index
            as int].generation);
        s.lemma_apply_wf(ops[0]);
        lemma_run_issued(s.apply(ops[0]), ops.drop_first(), key);
    }
}

/// A handle handed out earlier that no longer matches never matches again.
proof fn lemma_run_retired<T>(s: PoolState<T>, ops: Seq<PoolOp<T>>, key: PoolKey)
    requires
        s.wf(),
        s.issued(key),
        !s.holds(key),
    ensures
        s.run(ops).wf(),
        s.run(ops).issued(key),
        !s.run(ops).holds(key),
    decreases ops.len(),
{
    if ops.len() > 0 {
        let op = ops[0];
        let t = s.apply(op);
        lemma_apply_generations(s, op);
        assert(t.slots[key.index as int].generation >= s.slots[key.index as int].generation);
        s.lemma_apply_wf(op);
        match op {
            PoolOp::Remove(k) => {
                s.lemma_remove_wf(k);
            },
            _ => {},
        }
        lemma_run_retired(t, ops.drop_first(), key);
    }
}

/// An operation that does not affect `key` keeps the slot that `key` matches.
proof fn lemma_apply_keeps<T>(s: PoolState<T>, op: PoolOp<T>, key: PoolKey)
    requires
        s.wf(),
        s.holds(key),
        !op.affects(key),
    ensures
        s.apply(op).holds(key),
        s.apply(op).slots[key.index as int] == s.slots[key.index as int],
{
    match op {
        PoolOp::Insert(v) => {
            if s.can_insert() {
                s.lemma_insert_wf(v);
            }
        },
        _ => {},
    }
}

/// Two distinct insertions hand out different handles, whatever operations
/// run between them.
pub proof fn lemma_handles_unique<T>(s: PoolState<T>, first: T, ops: Seq<PoolOp<T>>, second: T)
    requires
        s.wf(),
        s.can_insert(),
        s.insert(first).run(ops).can_insert(),
    ensures
        s.insert_key() != s.insert(first).run(ops).insert_key(),
{
    s.lemma_insert_wf(first);
    lemma_run_issued(s.insert(first), ops, s.insert_key());
}

/// After `insert(value)`, the handle it returns yields `value` until an
/// operation on that handle, or a clear, intervenes.
pub proof fn lemma_value_kept<T>(s: PoolState<T>, value: T, ops: Seq<PoolOp<T>>)
    requires
        s.wf(),
        s.can_insert(),
        forall|j: int| 0 <= j < ops.len() ==> !(#[trigger] ops[j]).affects(s.insert_key()),
    ensures
        s.insert(value).run(ops).get(s.insert_key()) == Some(value),
{
    s.lemma_insert_wf(value);
    lemma_run_keeps(s.insert(value), ops, s.insert_key());
}

proof fn lemma_run_keeps<T>(s: PoolState<T>, ops: Seq<PoolOp<T>>, key: PoolKey)
    requires
        s.wf(),
        s.holds(key),
        forall|j: int| 0 <= j < ops.len() ==> !(#[trigger] ops[j]).affects(key),
    ensures
        s.run(ops).holds(key),
        s.run(ops).slots[key.index as int] == s.slots[key.index as int],
    decreases ops.len(),
{
    if ops.len() > 0 {
        assert(!ops[0].affects(key));
        lemma_apply_keeps(s, ops[0], key);
        s.lemma_apply_wf(ops[0]);
        let rest = ops.drop_first();
        assert forall|j: int| 0 <= j < rest.len() implies !(#[trigger] rest[j]).affects(key) by {
            assert(rest[j] == ops[j + 1]);
        }
        lemma_run_keeps(s.apply(ops[0]), rest, key);
    }
}

/// Once `take(key)` or `delete(key)` has run on a handle the pool handed out,
/// that handle matches nothing for all later operations: lookups find nothing
/// and removals change nothing.
pub proof fn lemma_removed_stays_absent<T>(s: PoolState<T>, key: PoolKey, ops: Seq<PoolOp<T>>)
    requires
        s.wf(),
        s.issued(key),
    ensures
        s.remove(key).run(ops).get(key) is None,
        s.remove(key).run(ops).remove(key) == s.remove(key).run(ops),
{
    s.lemma_remove_wf(key);
    lemma_run_retired(s.remove(key), ops, key);
}

/// After `take(key)` or `delete(key)` on a live handle, its slot is empty, and
/// stays empty while it keeps that generation; an insertion that fills it
/// again hands out a strictly greater generation.
pub proof fn lemma_generation_advances<T>(s: PoolState<T>, key: PoolKey, ops: Seq<PoolOp<T>>)
    requires
        s.wf(),
        s.holds(key),
    ensures
        s.remove(key).slots[key.index as int].data is None,
        s.remove(key).run(ops).slots[key.index as int].generation == key.generation ==> s.remove(
            key,
        ).run(ops).slots[key.index as int].data is None,
        s.remove(key).run(ops).can_insert() && s.remove(key).run(ops).insert_key().index
            == key.index ==> s.remove(key).run(ops).insert_key().generation > key.generation,
{
    s.lemma_remove_wf(key);
    lemma_run_retired(s.remove(key), ops, key);
}

/// The number of values held goes up by one with each insertion made, down by
/// one with each removal of a live handle, and to zero with a clear.
pub proof fn lemma_count_step<T>(s: PoolState<T>, op: PoolOp<T>)
    requires
        s.wf(),
    ensures
        s.apply(op).count == s.apply(op).occupied().len(),
        s.apply(op).count == match op {
            PoolOp::Insert(_) => if s.can_insert() {
                s.count + 1
            } else {
                s.count as int
            },
            PoolOp::Write(_, _) => s.count as int,
            PoolOp::WriteAll(_) => s.count as int,
            PoolOp::Remove(key) => if s.holds(key) {
                s.count - 1
            } else {
                s.count as int
            },
            PoolOp::Clear => 0,
        },
{
    s.lemma_apply_wf(op);
    match op {
        PoolOp::Remove(key) => {
            s.lemma_remove_wf(key);
        },
        _ => {},
    }
}

/// In every state a pool can reach, the handles that match a value are
/// distinct, one per value held, and no more than the capacity.
pub proof fn lemma_live_keys_bounded<T>(capacity: usize, ops: Seq<PoolOp<T>>)
    ensures
        forall|key: PoolKey|
            PoolState::<T>::empty(capacity).run(ops).live_keys().contains(key) <==> PoolState::<
                T,
            >::empty(capacity).run(ops).holds(key),
        PoolState::<T>::empty(capacity).run(ops).live_keys().no_duplicates(),
        PoolState::<T>::empty(capacity).run(ops).live_keys().len() == PoolState::<T>::empty(
            capacity,
        ).run(ops).count,
        PoolState::<T>::empty(capacity).run(ops).live_keys().len() <= capacity,
{
    PoolState::<T>::lemma_empty_wf(capacity);
    PoolState::<T>::empty(capacity).lemma_run_wf(ops);
    lemma_live_keys(PoolState::<T>::empty(capacity).run(ops));
}

/// In a well-formed state, the handles that match a value are distinct, one
/// per value held, and no more than the capacity.
pub proof fn lemma_live_keys<T>(s: PoolState<T>)
    requires
        s.wf(),
    ensures
        forall|key: PoolKey| s.live_keys().contains(key) <==> s.holds(key),
        s.live_keys().no_duplicates(),
        s.live_keys().len() == s.count,
        s.live_keys().len() <= s.capacity(),
{
    let occ = s.occupied();
    let live = s.live_keys();
    lemma_occupied_below_exact(s.slots, s.slots.len() as int);
    assert forall|key: PoolKey| live.contains(key) <==> s.holds(key) by {
        if s.holds(key) {
            assert(s.slots[key.index as int].data is Some);
            let j = choose|j: int| 0 <= j < occ.len() && occ[j] == key.index as int;
            assert(live[j] == key);
        }
        if live.contains(key) {
            let j = choose|j: int| 0 <= j < live.len() && live[j] == key;
            assert(occ[j] >= 0 && s.slots[occ[j]].data is Some);
        }
    }
    assert forall|a: int, b: int|
        0 <= a < live.len() && 0 <= b < live.len() && a != b implies live[a] != live[b] by {
        if a < b {
            assert(occ[a] < occ[b]);
        } else {
            assert(occ[b] < occ[a]);
        }
    }
}

/// Clearing twice leaves the same state as clearing once.
pub proof fn lemma_clear_idempotent<T>(s: PoolState<T>)
    ensures
        s.clear().clear() == s.clear(),
{
    assert(s.clear().clear().slots =~= s.clear().slots);
}

/// Iteration visits each slot that holds a value exactly once, in ascending
/// order of slots, and yields that slot's value.
pub proof fn lemma_iteration_order<T>(s: PoolState<T>)
    ensures
        forall|j: int, k: int|
            0 <= j < k < s.occupied().len() ==> #[trigger] s.occupied()[j]
                < #[trigger] s.occupied()[k],
        forall|i: int|
            s.occupied().contains(i) <==> 0 <= i < s.slots.len() && s.slots[i].data is Some,
        s.values().len() == s.occupied().len(),
        forall|j: int|
            0 <= j < s.values().len() ==> #[trigger] s.values()[j] == s.slots[
                s.occupied()[j]
            ].data.unwrap(),
{
    lemma_occupied_below_exact(s.slots, s.slots.len() as int);
    assert forall|i: int| s.occupied().contains(i) implies 0 <= i < s.slots.len()
        && s.slots[i].data is Some by {
        let j = choose|j: int| 0 <= j < s.occupied().len() && s.occupied()[j] == i;
    }
}

} // verus!
