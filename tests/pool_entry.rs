use spool::PoolEntry;

#[test]
fn default_makes_sense() {
    let val: PoolEntry<i32> = Default::default();

    assert_eq!(val.generation, 0);
    assert!(val.data.is_none());
}

#[test]
fn increments_generation() {
    let mut val: PoolEntry<i32> = Default::default();
    let test_gen = val.generation + 1;

    val.set(100);

    assert_eq!(val.generation, test_gen);
    assert!(val.data.is_some());

    let inner = val.data.unwrap();
    assert_eq!(inner, 100);
}

#[test]
fn pool_returns_none_if_empty() {
    let val: PoolEntry<i32> = Default::default();
    assert!(val.get().is_none());
}

#[test]
fn pool_returns_some_if_not_empty() {
    let mut val: PoolEntry<i32> = Default::default();
    val.set(100);
    assert!(val.get().is_some());
}

#[test]
fn returns_none_if_empty() {
    let mut val: PoolEntry<i32> = Default::default();
    assert!(val.get_mut().is_none());
}

#[test]
fn returns_some_if_not_empty() {
    let mut val: PoolEntry<i32> = Default::default();
    val.set(100);
    assert!(val.get_mut().is_some());
}

#[test]
fn sets_contents_to_none_without_advancing_generation() {
    let mut val: PoolEntry<i32> = Default::default();
    val.set(100);

    let generation = val.generation;
    val.clear();

    assert_eq!(generation, val.generation);
    assert!(val.data.is_none());
}
