//! A deadline-driven interrupt dispatcher core.
//!
//! The library tracks time budgets for a set of cooperatively-preemptible
//! sessions. Each session is registered under a caller-supplied identifier
//! together with an engine handle and an optional deadline; the dispatcher
//! decides, from the commands it receives and from the passage of time,
//! which sessions to stop tracking and which engines to interrupt.
//!
//! The decision logic lives here, fully verified against a mathematical
//! model of the dispatcher ([`model`]). The surrounding runtime (the
//! background thread, the command channel, the clock and the engine's own
//! interrupt primitive) performs the actions this library decides on.

pub mod dispatcher;
pub mod laws;
pub mod model;
