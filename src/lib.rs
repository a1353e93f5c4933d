//! Per-station minimum / maximum / mean over a large `key;value` text file,
//! computed by scanning record-aligned byte ranges independently and merging
//! the partial results.

pub mod aggregate;
pub mod keys;
pub mod mmap;
pub mod partition;
pub mod record;
pub mod report;
pub mod scan;
pub mod station_map;
pub mod stats;
