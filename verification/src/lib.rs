//! Lifecycle of a playable level: a screen / menu / pause state machine, an
//! entity arena with a parent-child hierarchy, a deferred spawn queue and the
//! level assembler that ties them together.
//!
//! Numbers that the engine holds as single-precision floats (poses, health)
//! are carried here by their IEEE-754 bit patterns, so that every value the
//! library touches is an integer.

pub mod entity;
pub mod laws;
pub mod level;
pub mod player;
pub mod queue;
pub mod session;
pub mod state;
pub mod tree;
pub mod world;
