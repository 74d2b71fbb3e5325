//! Memory profiles of processes: samples of the memory counters of a running
//! process, the text they are kept as, and the store of the runs kept so far.
//!
//! The library reads and writes no file and starts no process. It takes the
//! lines that were read, and gives the lines to write.

pub mod memory;
pub mod numeral;
pub mod profile;
pub mod sampler;
pub mod store;
pub mod text;
pub mod tsv;
