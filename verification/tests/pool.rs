use raven::distance::F32;
use raven::graph::linear_pool::sort_by_distance;
use raven::graph::LinearPool;

fn single(x: f32) -> F32 {
    F32(x.to_bits())
}

fn value(x: F32) -> f32 {
    f32::from_bits(x.0)
}

#[test]
fn insert_and_pop_basic() {
    let mut pool = LinearPool::new(5);
    assert!(pool.is_empty());

    pool.insert(1, single(3.0));
    pool.insert(2, single(1.0));
    pool.insert(3, single(2.0));

    assert_eq!(pool.len(), 3);

    let (id, dist) = pool.pop().unwrap();
    assert_eq!(id, 2);
    assert!((value(dist) - 1.0).abs() < 1e-6);

    let (id, _) = pool.pop().unwrap();
    assert_eq!(id, 3);

    let (id, _) = pool.pop().unwrap();
    assert_eq!(id, 1);

    assert!(pool.pop().is_none());
}

#[test]
fn capacity_rejects_worst() {
    let mut pool = LinearPool::new(3);
    pool.insert(1, single(1.0));
    pool.insert(2, single(2.0));
    pool.insert(3, single(3.0));
    assert_eq!(pool.len(), 3);

    assert!(!pool.insert(4, single(4.0)));
    assert_eq!(pool.len(), 3);

    assert!(pool.insert(5, single(2.5)));
    assert_eq!(pool.len(), 3);

    assert!((value(pool.worst_distance()) - 2.5).abs() < 1e-6);
}

#[test]
fn has_next_terminates_at_ef() {
    let mut pool = LinearPool::new(3);
    pool.insert(1, single(1.0));
    pool.insert(2, single(2.0));
    pool.insert(3, single(3.0));

    assert!(pool.has_next());
    pool.pop();
    assert!(pool.has_next());
    pool.pop();
    assert!(pool.has_next());
    pool.pop();
    assert!(!pool.has_next());
}

#[test]
fn insert_before_cursor_adjusts_cursor() {
    let mut pool = LinearPool::new(10);
    pool.insert(1, single(5.0));
    pool.insert(2, single(10.0));

    pool.pop();
    assert_eq!(pool.cursor(), 1);

    pool.insert(3, single(3.0));
    assert_eq!(pool.cursor(), 0);

    let (id, _) = pool.pop().unwrap();
    assert_eq!(id, 3);
}

#[test]
fn sorted_order_maintained() {
    let mut pool = LinearPool::new(20);
    let distances = [5.0f32, 1.0, 3.0, 2.0, 4.0, 0.5, 2.5];
    for (i, &d) in distances.iter().enumerate() {
        pool.insert(i as u32, single(d));
    }

    let result = pool.to_sorted_vec();
    for i in 0..result.len() - 1 {
        assert!(value(result[i].1) <= value(result[i + 1].1), "Not sorted at index {}", i);
    }
}

#[test]
fn empty_pool_operations() {
    let mut pool = LinearPool::new(5);
    assert!(pool.is_empty());
    assert!(pool.pop().is_none());
    assert!(!pool.has_next());
    assert_eq!(value(pool.worst_distance()), f32::MAX);
}

#[test]
fn clear_resets_state() {
    let mut pool = LinearPool::new(5);
    pool.insert(1, single(1.0));
    pool.insert(2, single(2.0));
    pool.pop();

    pool.clear();
    assert!(pool.is_empty());
    assert_eq!(pool.len(), 0);
    assert!(!pool.has_next());
}

#[test]
fn large_capacity_stress() {
    let mut pool = LinearPool::new(100);
    for i in 0..200u32 {
        pool.insert(i, single((i as f32) * 0.5));
    }
    assert_eq!(pool.len(), 100);

    let result = pool.to_sorted_vec();
    for i in 0..result.len() - 1 {
        assert!(value(result[i].1) <= value(result[i + 1].1));
    }

    let mut prev = f32::MIN;
    while let Some((_, dist)) = pool.pop() {
        assert!(value(dist) >= prev);
        prev = value(dist);
    }
}

#[test]
fn the_nearest_are_kept() {
    let mut pool = LinearPool::new(2);
    for (id, d) in [(0u32, 4.0f32), (1, 2.0), (2, 9.0), (3, 1.0)] {
        pool.insert(id, single(d));
    }
    assert_eq!(pool.into_sorted_vec(), vec![(3, single(1.0)), (1, single(2.0))]);
}

#[test]
fn equal_distances_keep_their_order() {
    let list = vec![(7u32, single(1.0)), (3, single(0.5)), (9, single(1.0))];
    let sorted = sort_by_distance(&list);
    assert_eq!(sorted, vec![(3, single(0.5)), (7, single(1.0)), (9, single(1.0))]);
}

#[test]
fn a_pool_can_be_given_another_width() {
    let mut pool = LinearPool::new(1);
    pool.insert(1, single(1.0));
    pool.reset_for(2);
    assert!(pool.is_empty());
    pool.insert(1, single(1.0));
    pool.insert(2, single(2.0));
    assert_eq!(pool.len(), 2);
    assert_eq!(pool.peek_unchecked(), Some((1, single(1.0))));
}
