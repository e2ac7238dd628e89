//! Inspection of a Linux process's address space: the memory map model,
//! masked byte patterns, and chunked scans of address ranges for them.

pub mod errors;
pub mod text;
pub mod pattern;
pub mod traits;
pub mod scanner;
pub mod region;
pub mod maps;
pub mod scan;
pub mod snapshot;
pub mod procmem;
