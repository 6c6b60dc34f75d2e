use manifold::builder::{ColumnFamilyDatabaseBuilder, DEFAULT_POOL_SIZE};

#[test]
fn test_builder_default() {
    let builder = ColumnFamilyDatabaseBuilder::new();
    assert_eq!(builder.pool_size, DEFAULT_POOL_SIZE);
}

#[test]
fn test_builder_custom_pool_size() {
    let builder = ColumnFamilyDatabaseBuilder::new().pool_size(64);
    assert_eq!(builder.pool_size, 64);
}

#[test]
fn test_builder_default_trait_matches_new() {
    let builder = ColumnFamilyDatabaseBuilder::default();
    assert_eq!(builder.pool_size, 32);
}
