//! A dual-function key remapper: a configured trigger key yields one key when
//! tapped quickly and another (typically a modifier) while held.
//!
//! The crate holds the remap engine: the per-mapping tap/hold state machine,
//! chord (interrupt) handling while a trigger is held, and pass-through of
//! unrelated events. The engine is a pure transition function from the current
//! state and one raw event to the next state and the events to emit; reading
//! the physical device and writing the virtual one are the caller's side.

pub mod config;
pub mod engine;
pub mod event;
pub mod laws;
pub mod remapper;
