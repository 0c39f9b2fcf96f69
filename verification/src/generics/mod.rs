//! Scaffold records and the operations that build and describe them.

pub mod scaffold;
pub mod classify;
pub mod reader;
pub mod sequence_map;
pub mod log;
