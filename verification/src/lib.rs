//! Named shared/exclusive locks with FIFO queueing, `steal` preemption and
//! fail-fast acquisition.
//!
//! The crate is a sequential state machine. Every operation takes the state by
//! `&mut`, returns the notices that have to be posted to the requests' ports,
//! and is specified against a mathematical model of the lock. The host owns the
//! [`manager::LockManager`] behind its own mutual exclusion, posts the notices
//! in their order, and reports back with `settle` whether a `Locked` notice
//! reached its port: a grant that could not be delivered is abandoned, and the
//! next request in line gets its turn.
//!
//! * [`disposition`], [`request`]: one request, its flags and its notices.
//! * [`model`], [`registry`]: the mathematical states and operations.
//! * [`state`], [`manager`]: the executable lock and the registry of locks.
//! * [`queue`], [`invariants`]: the proofs that the operations keep the
//!   invariants.
//! * [`laws`], [`registry_laws`], [`hearing`]: what holds of every lock and of
//!   every registry.

pub mod disposition;
pub mod request;
pub mod model;
pub mod queue;
pub mod invariants;
pub mod state;
pub mod registry;
pub mod manager;
pub mod laws;
pub mod registry_laws;
pub mod hearing;
