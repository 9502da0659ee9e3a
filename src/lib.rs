//! Sorted string table encoding: prefix-compressed blocks with restart points,
//! per-range membership filters, and the assembler that lays them out as a file.

pub mod bits;
pub mod block_builder;
pub mod coding;
pub mod comparator;
pub mod crc32c;
pub mod env;
pub mod filter_block;
pub mod format;
pub mod hash;
pub mod logging;
pub mod random;
pub mod status;
pub mod table_builder;
