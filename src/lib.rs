//! Storage and indexing core of an embedded document database.
//!
//! Every shard is held as the exact bytes of its backing file: a fixed
//! header (capacity, last used slot, identifier, slot-offset table)
//! followed by the records. The operations read and write that image,
//! and reading or writing it on disk is left to the caller.
pub mod errors;
pub mod bytes;
pub mod header;
pub mod data_shard;
pub mod map_shard;
pub mod temp_collection;
pub mod key_order;
pub mod index_data_unit;
pub mod index_shard;
pub mod table;
pub mod dirs;
pub mod table_shard;
pub mod query_shard;
pub mod fdm;
