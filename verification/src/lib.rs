//! Column-family storage layout, write-ahead-log framing and recovery logic.

pub mod checksum;
pub mod codec;
pub mod text;
pub mod header;
pub mod header_laws;
pub mod wal;
pub mod backend;
pub mod partitioned_backend;
pub mod partition_laws;
pub mod file_handle_pool;
pub mod state;
pub mod builder;
pub mod database;
pub mod database_laws;
pub mod layout_laws;
pub mod types;
pub mod keys;
pub mod tuples;
