//! Write-ahead log: entry encoding, journal framing, recovery checks and the
//! checkpoint and sync bookkeeping around them.

pub mod page;
pub mod async_journal;
pub mod checkpoint;
pub mod config;
pub mod entry;
pub mod entry_laws;
pub mod journal;
pub mod journal_laws;
pub mod replay;
