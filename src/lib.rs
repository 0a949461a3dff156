//! A fan-in multiplexer for asynchronous sources.
//!
//! The multiplexer owns a queue of sources and a registry of resume handles.
//! It never polls a source itself: a poll call is driven step by step by the
//! caller, which takes the source at the front of the queue, polls it once and
//! reports the outcome back.  Every decision of the merge (who wins, where a
//! source goes next, when the whole multiplexer is done, when a handle is
//! registered or handed back for waking) is made here and verified.

pub mod model;
pub mod mux;
pub mod laws;

pub use model::{MuxModel, Outcome, Verdict};
pub use mux::Mux;
