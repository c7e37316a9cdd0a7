pub mod batch_laws;
pub mod columnar;
pub mod compaction;
pub mod memtable;
pub mod recovery;
pub mod region_laws;
pub mod restart_laws;
pub mod series;
pub mod skiptable;
pub mod source_laws;
pub mod traits;
pub mod transaction;
pub mod version;
pub mod wal;
pub mod wal_laws;
