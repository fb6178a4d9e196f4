use spool::{create_default_pool, ObjectPool, Pool, PoolEntry, PoolError, PoolKey};

#[test]
fn first_insertion_yields_index_zero_generation_one() {
    let mut pool: ObjectPool<i32> = ObjectPool::new(10);
    let key = pool.insert(100);
    assert_eq!(key, PoolKey { index: 0, generation: 1 });
    assert_eq!(pool.get(&key), Some(&100));
}

#[test]
fn freed_slot_is_reused_with_next_generation() {
    let mut pool: ObjectPool<i32> = ObjectPool::new(10);
    let h1 = pool.insert(100);
    assert_eq!(h1, PoolKey { index: 0, generation: 1 });
    pool.delete(&h1);
    let h2 = pool.insert(200);
    assert_eq!(h2, PoolKey { index: 0, generation: 2 });
    assert!(pool.get(&h1).is_none());
    assert_eq!(pool.get(&h2), Some(&200));
}

#[test]
fn freed_slots_are_reused_last_in_first_out() {
    let mut pool: ObjectPool<i32> = ObjectPool::new(10);
    let keys: Vec<PoolKey> = (0..5).map(|i| pool.insert(i)).collect();
    pool.delete(&keys[1]);
    pool.take(&keys[3]);
    let a = pool.insert(30);
    let b = pool.insert(10);
    let c = pool.insert(50);
    assert_eq!(a, PoolKey { index: 3, generation: 2 });
    assert_eq!(b, PoolKey { index: 1, generation: 2 });
    assert_eq!(c, PoolKey { index: 5, generation: 1 });
}

#[test]
fn try_insert_reports_capacity_exhausted() {
    let mut pool: ObjectPool<i32> = ObjectPool::new(10);
    let mut keys = Vec::new();
    for i in 0..10 {
        keys.push(pool.try_insert(i).unwrap());
    }
    assert_eq!(pool.try_insert(10), Err(PoolError::CapacityExhausted));
    assert_eq!(pool.count, 10);

    pool.delete(&keys[4]);
    let again = pool.try_insert(11).unwrap();
    assert_eq!(again, PoolKey { index: 4, generation: 2 });
    assert_eq!(pool.try_insert(12), Err(PoolError::CapacityExhausted));
    assert_eq!(pool.get(&again), Some(&11));
}

#[test]
fn zero_capacity_pool_rejects_every_insertion() {
    let mut pool: ObjectPool<i32> = ObjectPool::new(0);
    assert_eq!(pool.capacity(), 0);
    assert_eq!(pool.try_insert(1), Err(PoolError::CapacityExhausted));
    assert!(pool.iter().is_empty());
}

#[test]
fn try_insert_reports_generation_exhausted() {
    let mut pool: ObjectPool<i32> = ObjectPool::new(1);
    let key = pool.insert(1);
    pool.delete(&key);
    pool.data[0].generation = usize::MAX;
    assert_eq!(pool.try_insert(2), Err(PoolError::GenerationExhausted));
    assert_eq!(pool.count, 0);
    assert_eq!(pool.free, vec![0]);
}

#[test]
fn mismatched_generation_is_rejected_everywhere() {
    let mut pool: ObjectPool<i32> = ObjectPool::new(10);
    let h = pool.insert(100);
    let forged = PoolKey { index: h.index, generation: 42 };
    assert!(pool.get(&forged).is_none());
    assert!(pool.get_mut(&forged).is_none());
    assert!(pool.take(&forged).is_none());
    pool.delete(&forged);
    assert_eq!(pool.count, 1);
    assert_eq!(pool.get(&h), Some(&100));
}

#[test]
fn clear_keeps_slot_generations() {
    let mut pool: ObjectPool<i32> = ObjectPool::new(10);
    let keys: Vec<PoolKey> = (0..10).map(|i| pool.insert(i)).collect();
    pool.clear();
    for key in &keys {
        assert!(pool.get(key).is_none());
    }
    let key = pool.insert(7);
    assert_eq!(key, PoolKey { index: 0, generation: 2 });
}

#[test]
fn clearing_twice_equals_clearing_once() {
    let mut once: ObjectPool<i32> = ObjectPool::new(4);
    let mut twice: ObjectPool<i32> = ObjectPool::new(4);
    for pool in [&mut once, &mut twice] {
        let a = pool.insert(1);
        pool.insert(2);
        pool.delete(&a);
    }
    once.clear();
    twice.clear();
    twice.clear();
    assert_eq!(once.count, twice.count);
    assert_eq!(once.next, twice.next);
    assert_eq!(once.free, twice.free);
    for i in 0..4 {
        assert_eq!(once.data[i].generation, twice.data[i].generation);
        assert_eq!(once.data[i].data, twice.data[i].data);
    }
    assert_eq!(once.insert(9), twice.insert(9));
}

#[test]
fn handles_from_distinct_insertions_differ() {
    let mut pool: ObjectPool<i32> = ObjectPool::new(3);
    let mut seen: Vec<PoolKey> = Vec::new();
    for round in 0..4 {
        let a = pool.insert(round);
        let b = pool.insert(round);
        pool.delete(&a);
        let c = pool.insert(round);
        seen.extend([a, b, c]);
        if round % 2 == 0 {
            pool.clear();
        } else {
            pool.take(&b);
            pool.take(&c);
        }
    }
    for i in 0..seen.len() {
        for j in 0..i {
            assert_ne!(seen[i], seen[j]);
        }
    }
}

#[test]
fn value_is_kept_until_its_handle_is_removed() {
    let mut pool: ObjectPool<i32> = ObjectPool::new(4);
    let h = pool.insert(5);
    let other = pool.insert(6);
    pool.delete(&other);
    let third = pool.insert(7);
    pool.take(&third);
    *pool.get_mut(&third).unwrap_or(&mut 0) = 1;
    assert_eq!(pool.get(&h), Some(&5));
    pool.delete(&h);
    assert!(pool.get(&h).is_none());
}

#[test]
fn removed_handle_stays_absent_after_slot_reuse() {
    let mut pool: ObjectPool<i32> = ObjectPool::new(2);
    let h = pool.insert(1);
    assert_eq!(pool.take(&h), Some(1));
    let reused = pool.insert(2);
    assert_eq!(reused.index, h.index);
    assert!(reused.generation > h.generation);
    assert!(pool.get(&h).is_none());
    assert!(pool.get_mut(&h).is_none());
    assert!(pool.take(&h).is_none());
    pool.delete(&h);
    assert_eq!(pool.count, 1);
    assert_eq!(pool.get(&reused), Some(&2));
}

#[test]
fn emptied_slot_holds_nothing_until_reused() {
    let mut pool: ObjectPool<i32> = ObjectPool::new(2);
    let h = pool.insert(1);
    pool.delete(&h);
    assert!(pool.data[h.index].data.is_none());
    assert_eq!(pool.data[h.index].generation, h.generation);
    let next = pool.insert(3);
    assert_eq!(next.index, h.index);
    assert_eq!(next.generation, h.generation + 1);
}

#[test]
fn count_follows_insertions_removals_and_clears() {
    let mut pool: ObjectPool<i32> = ObjectPool::new(5);
    let a = pool.insert(1);
    let b = pool.insert(2);
    let _c = pool.insert(3);
    assert_eq!(pool.count, 3);
    pool.delete(&a);
    assert_eq!(pool.count, 2);
    pool.delete(&a);
    assert_eq!(pool.count, 2);
    assert_eq!(pool.take(&b), Some(2));
    assert_eq!(pool.count, 1);
    pool.clear();
    assert_eq!(pool.count, 0);
    pool.insert(4);
    assert_eq!(pool.count, 1);
}

#[test]
fn live_handles_never_exceed_capacity() {
    let mut pool: ObjectPool<i32> = ObjectPool::new(3);
    let mut issued: Vec<PoolKey> = Vec::new();
    for i in 0..3 {
        issued.push(pool.insert(i));
    }
    pool.delete(&issued[0]);
    issued.push(pool.insert(10));
    for i in 0..2 {
        assert_eq!(pool.try_insert(20 + i), Err(PoolError::CapacityExhausted));
    }
    let live = issued.iter().filter(|k| pool.get(k).is_some()).count();
    assert_eq!(live, 3);
    assert!(live <= pool.capacity());
    assert_eq!(live, pool.count);
}

#[test]
fn iteration_visits_occupied_slots_in_ascending_order() {
    let mut pool: ObjectPool<i32> = ObjectPool::new(5);
    let keys: Vec<PoolKey> = (0..5).map(|i| pool.insert(i * 10)).collect();
    pool.delete(&keys[3]);
    pool.delete(&keys[0]);
    pool.insert(99);
    assert_eq!(pool.iter(), vec![&99, &10, &20, &40]);
}

#[test]
fn get_mut_writes_through_to_the_slot() {
    let mut pool: ObjectPool<i32> = ObjectPool::new(3);
    let key = pool.insert(1);
    *pool.get_mut(&key).unwrap() = 41;
    assert_eq!(pool.get(&key), Some(&41));
    assert_eq!(pool.data[key.index].generation, key.generation);
}

#[test]
fn iter_mut_writes_through_in_slot_order() {
    let mut pool: ObjectPool<i32> = ObjectPool::new(4);
    let a = pool.insert(1);
    let b = pool.insert(2);
    let c = pool.insert(3);
    pool.delete(&b);
    for (n, value) in pool.iter_mut().into_iter().enumerate() {
        *value += 100 * (n as i32 + 1);
    }
    assert_eq!(pool.get(&a), Some(&101));
    assert_eq!(pool.get(&c), Some(&203));
    assert_eq!(pool.count, 2);
}

#[test]
fn default_pool_behaves_as_a_pool() {
    let mut pool = create_default_pool::<u8>(2);
    assert_eq!(pool.capacity(), 2);
    let a = pool.insert(1);
    let b = pool.insert(2);
    assert_eq!(pool.get(&a), Some(&1));
    assert_eq!(pool.take(&b), Some(2));
    pool.clear();
    assert!(pool.get(&a).is_none());
}

#[test]
fn entry_take_moves_the_value_out() {
    let mut entry: PoolEntry<String> = PoolEntry::new();
    assert!(entry.is_empty());
    let generation = entry.set(String::from("x"));
    assert_eq!(generation, 1);
    assert!(!entry.is_empty());
    assert_eq!(entry.take(), Some(String::from("x")));
    assert!(entry.is_empty());
    assert_eq!(entry.generation, 1);
}
