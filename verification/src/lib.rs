//! Reading, selecting and re-writing Stellaris empire design files.
pub mod text;
pub mod scan;
pub mod summary;
pub mod parser;
pub mod io_ops;
pub mod laws;
pub mod roundtrip;
pub mod preview;
