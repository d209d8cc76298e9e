//! Chunked file ingestion decisions and a bit-packed codec for prefix-code tables.
pub mod hash_table_serialize;
pub mod file_buf_reader;
