//! Verified core of the UE5/VFX asset pipeline utilities: BLAKE3 checksums,
//! the extension filter and result collection of batch copies, USD asset
//! reference scanning, dependency-graph cycle detection, and USD layer stack
//! resolution. File system work is left to the caller; see `usd_resolver`
//! for how a resolution asks for it.

pub mod batch_processor;
pub mod checksum;
pub mod config;
pub mod dep_graph;
pub mod error;
pub mod text;
pub mod usd_resolver;
