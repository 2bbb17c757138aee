//! Binary columns and write-ahead-log metadata.
pub mod binary;
pub mod column;
pub mod ddl;
pub mod entry_ids;
pub mod error;
pub mod hash_maps;
pub mod json;
pub mod jsonb_text;
pub mod mailbox;
pub mod meta_error;
pub mod region;
pub mod rows;
pub mod string_map;
pub mod text;
pub mod value;
pub mod vector_text;
pub mod wal_prune;
