//! Runtime core of a line-oriented visual-novel scripting engine: a script
//! compiler, a step-driven bytecode interpreter with durable save state, and
//! a random-access reader for a packed archive format.

pub mod archive;
pub mod compiler;
pub mod engine;
pub mod laws;
pub mod memory;
pub mod pretty;
pub mod roundtrip;
pub mod script;
pub mod table;
pub mod text;
