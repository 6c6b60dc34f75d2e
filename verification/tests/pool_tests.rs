use manifold::file_handle_pool::FileHandlePool;

/// Gets the handle of `name`, opening handle `fresh` if it has none.
fn acquire(pool: &mut FileHandlePool<u32>, name: &str, fresh: u32) -> u32 {
    match pool.lookup(name) {
        Some(h) => h,
        None => pool.insert(name, fresh),
    }
}

#[test]
fn test_pool_creation() {
    let pool: FileHandlePool<u32> = FileHandlePool::new(10);
    assert_eq!(pool.max_size(), 10);
    assert_eq!(pool.len(), 0);
    assert!(pool.is_empty());
}

#[test]
fn test_acquire_creates_new_handle() {
    let mut pool = FileHandlePool::new(10);

    let handle1 = acquire(&mut pool, "cf1", 1);
    assert_eq!(pool.len(), 1);
    assert!(!pool.is_empty());

    let handle2 = acquire(&mut pool, "cf2", 2);
    assert_eq!(pool.len(), 2);

    assert_ne!(handle1, handle2);
}

#[test]
fn test_acquire_reuses_existing_handle() {
    let mut pool = FileHandlePool::new(10);

    let handle1 = acquire(&mut pool, "cf1", 1);
    let handle2 = acquire(&mut pool, "cf1", 2);

    assert_eq!(pool.len(), 1);
    assert_eq!(handle1, handle2);
}

#[test]
fn test_release_removes_handle() {
    let mut pool = FileHandlePool::new(10);

    acquire(&mut pool, "cf1", 1);
    assert_eq!(pool.len(), 1);

    pool.release("cf1");
    assert_eq!(pool.len(), 0);
    assert!(pool.is_empty());
}

#[test]
fn test_lru_eviction() {
    let mut pool = FileHandlePool::new(3);

    acquire(&mut pool, "cf1", 1);
    acquire(&mut pool, "cf2", 2);
    acquire(&mut pool, "cf3", 3);
    assert_eq!(pool.len(), 3);

    acquire(&mut pool, "cf4", 4);
    assert_eq!(pool.len(), 3);

    assert_eq!(pool.lookup("cf1"), None);
    assert_eq!(pool.lookup("cf2"), Some(2));
    assert_eq!(pool.lookup("cf3"), Some(3));
    assert_eq!(pool.lookup("cf4"), Some(4));
}

#[test]
fn test_lru_respects_touch() {
    let mut pool = FileHandlePool::new(3);

    acquire(&mut pool, "cf1", 1);
    acquire(&mut pool, "cf2", 2);
    acquire(&mut pool, "cf3", 3);

    pool.touch("cf1");

    acquire(&mut pool, "cf4", 4);

    assert_eq!(pool.lookup("cf1"), Some(1));
    assert_eq!(pool.lookup("cf2"), None);
    assert_eq!(pool.lookup("cf3"), Some(3));
    assert_eq!(pool.lookup("cf4"), Some(4));
}

#[test]
fn test_zero_sized_pool_keeps_no_handle() {
    let mut pool = FileHandlePool::new(0);
    assert_eq!(acquire(&mut pool, "a", 1), 1);
    assert_eq!(acquire(&mut pool, "b", 2), 2);
    assert_eq!(pool.len(), 0);
    assert_eq!(pool.lookup("b"), None);
}

#[test]
fn test_insert_keeps_existing_handle() {
    let mut pool = FileHandlePool::new(2);
    pool.insert("a", 1);
    // Opened meanwhile: the pooled handle wins.
    assert_eq!(pool.insert("a", 9), 1);
    assert_eq!(pool.len(), 1);
}
