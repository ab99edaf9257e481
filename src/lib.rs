pub mod cache;
pub mod codec;
pub mod definitions;
pub mod trace;
pub mod invariants;
pub mod laws;
pub mod parse;
