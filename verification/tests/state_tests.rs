use manifold::file_handle_pool::FileHandlePool;
use manifold::header::Segment;
use manifold::state::ColumnFamilyState;

#[test]
fn test_state_creation() {
    let segments = vec![Segment::new(4096, 1024 * 1024)];
    let state: ColumnFamilyState<u32> = ColumnFamilyState::new("test_cf".to_string(), segments.clone());

    assert_eq!(state.name, "test_cf");
    assert_eq!(state.segments.len(), 1);
    assert!(state.db.is_none());
}

#[test]
fn test_eviction() {
    let segments = vec![Segment::new(4096, 1024 * 1024)];
    let mut state: ColumnFamilyState<u32> = ColumnFamilyState::new("test_cf".to_string(), segments);

    assert!(state.db.is_none());

    state.evict_database();

    assert!(state.db.is_none());
}

#[test]
fn test_ensure_database_touches_pool() {
    let mut pool: FileHandlePool<u8> = FileHandlePool::new(2);
    pool.insert("a", 1);
    pool.insert("b", 2);
    let mut state: ColumnFamilyState<u32> = ColumnFamilyState::new("a".to_string(), vec![]);
    assert!(state.ensure_database(&mut pool).is_none());
    state.install_database(7);
    assert_eq!(state.ensure_database(&mut pool), Some(&7));
    // "a" was used last, so "b" goes when a third handle comes in.
    pool.insert("c", 3);
    assert_eq!(pool.lookup("b"), None);
    assert_eq!(pool.lookup("a"), Some(1));
    state.evict_database();
    assert!(state.ensure_database_wasm().is_none());
}
