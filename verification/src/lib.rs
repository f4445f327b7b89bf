//! StyleBench workload generator and the text fixture that both style runners read.
pub mod random;
pub mod text;
pub mod model;
pub mod format;
pub mod parse;
pub mod roundtrip;
pub mod names;
pub mod sheet;
pub mod subtree;
pub mod tree;
pub mod walk;
pub mod mutations;
pub mod generator;
pub mod slots;
pub mod batches;
pub mod script;
