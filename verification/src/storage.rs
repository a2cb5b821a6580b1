//! The storage engine: slotted pages, buffer pool, heap file, index file,
//! write ahead log and the B+ tree on top of them.

pub mod bplus_tree;
pub mod buffer_pool;
pub mod bytes;
pub mod checkpoint_laws;
pub mod error;
pub mod file;
pub mod header;
pub mod heap;
pub mod heap_laws;
pub mod index;
pub mod layout_laws;
pub mod logging_laws;
pub mod page_laws;
pub mod pager;
pub mod paging;
pub mod pool_laws;
pub mod recovery;
pub mod recovery_history;
pub mod recovery_laws;
pub mod restart_laws;
pub mod rollback_laws;
pub mod slotted_page;
pub mod tree_laws;
pub mod tree_layout;
pub mod tree_model;
pub mod tree_paths;
pub mod tree_steps;
pub mod wal;
pub mod wal_buffer;
pub mod wal_laws;
