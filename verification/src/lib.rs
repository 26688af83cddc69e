use vstd::prelude::*;

mod bloom;
mod db;
mod imm_tables;
mod table_set;
mod error;
mod mem_table;
mod journal;
mod manifest;
mod sst_manager;
mod sst_writer;
mod sstable;
mod version;
mod keys;
mod types;
mod utils;

pub use bloom::BloomFilter;
pub use db::{Kepler, KeplerInner};
pub use imm_tables::ImmTables;
pub use journal::{recovery_wal, Journal, FileId};
pub use mem_table::MemTable;
pub use table_set::TableSet;
pub use sstable::{SSTable, SparseIndex};
pub use sst_manager::recovery_sst;
pub use sst_writer::flush_one;
pub use manifest::restore_sst_list;
pub use manifest::Manifest;
pub use sst_manager::SSTManager;
pub use sst_writer::FlushResult;
pub use version::{SSTInfo, Version};
pub use error::{KeplerErr, KeplerResult};
pub use types::{TableEntry, Value};
pub use utils::{from_le_to_u32, from_le_to_u64};

verus! {

} // verus!
