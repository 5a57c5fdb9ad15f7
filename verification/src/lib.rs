//! A write-ahead log with verified codecs, page ring, readers and file plans.

pub mod bounded_map;
pub mod buf;
pub mod byte_map;
pub mod crc32c;
pub mod drainer;
pub mod errors;
pub mod fault;
pub mod fs;
pub mod history;
pub mod le;
pub mod offloader;
pub mod page_pool;
pub mod paths;
pub mod reader;
pub mod recovery;
pub mod seed;
pub mod stream;
pub mod text;
pub mod uintn;
pub mod varint;
pub mod wal_arena;
pub mod wal_entry;
pub mod wal_entry_v1;
pub mod wal_header;
pub mod wal_header_v1;
pub mod wal_page;
pub mod wal_ring_v1;
pub mod writer;
