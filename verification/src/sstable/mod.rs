pub mod bloom;
pub mod cache;
pub mod hex;
pub mod index;
pub mod sstable;
pub mod table_laws;
