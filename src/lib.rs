//! Storage layer pieces of an incremental dataflow engine: a trace whose
//! updates live in an ordered key-value partition and are combined by a
//! merge policy, the cursor that reads it back, and a few operator helpers.

pub mod average;
pub mod codec;
pub mod consumer;
pub mod cursor;
pub mod integrate;
pub mod laws;
pub mod merge;
pub mod nodes;
pub mod partition;
pub mod policy;
pub mod record;
pub mod trace;
