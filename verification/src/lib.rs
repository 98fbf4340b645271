//! Parser and byte-range resolver for the textual sidecar index ("idx") that
//! accompanies a binary GRIB2 object: each line of the index names one record
//! inside the binary file together with its start offset, and this crate turns
//! those lines into a lookup from (variable, level) to the exact byte range of
//! the record, deriving each end offset from the start of the next record.

pub mod index;
pub mod parse;
pub mod pipeline;
pub mod resolve;
pub mod types;
